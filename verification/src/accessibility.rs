//! What a text input tells assistive technology: the role it announces
//! for the kind of content it holds, and whether it exposes its value.

use vstd::prelude::*;

verus! {

/// The kind of content a text input holds, as platform autofill and
/// keyboards know it.
#[derive(Clone, Copy, Debug, PartialEq, Eq, Structural)]
pub enum InputContentType {
    TelephoneNumber,
    EmailAddress,
    Url,
    Password,
    NewPassword,
    DateTime,
    Birthdate,
    Name,
    NamePrefix,
    GivenName,
    MiddleName,
    FamilyName,
    NameSuffix,
    Nickname,
    JobTitle,
    OrganizationName,
    Location,
    FullStreetAddress,
    StreetAddressLine1,
    StreetAddressLine2,
    AddressCity,
    AddressState,
    AddressCityAndState,
    Sublocality,
    CountryName,
    PostalCode,
    CreditCardNumber,
    CreditCardName,
    CreditCardGivenName,
    CreditCardMiddleName,
    CreditCardFamilyName,
    CreditCardSecurityCode,
    CreditCardExpiration,
    CreditCardExpirationMonth,
    CreditCardExpirationYear,
    CreditCardType,
    Username,
    OneTimeCode,
    ShipmentTrackingNumber,
    FlightNumber,
    BirthdateDay,
    BirthdateMonth,
    BirthdateYear,
    CellularEid,
    CellularImei,
}

/// The accessibility role a text input announces.
#[derive(Clone, Copy, Debug, PartialEq, Eq, Structural)]
pub enum InputRole {
    MultilineTextInput,
    TextInput,
    PhoneNumberInput,
    EmailInput,
    UrlInput,
    PasswordInput,
    DateTimeInput,
    DateInput,
}

/// The role an input announces unless it is given another: a multi-line
/// input is multi-line text; a telephone number, email address, URL,
/// password, date-time or birth date announces that kind of input; any
/// other content is plain text.
pub open spec fn spec_default_role(is_multi_line: bool, content_type: Option<InputContentType>) -> InputRole {
    if is_multi_line {
        InputRole::MultilineTextInput
    } else {
        match content_type {
            Some(InputContentType::TelephoneNumber) => InputRole::PhoneNumberInput,
            Some(InputContentType::EmailAddress) => InputRole::EmailInput,
            Some(InputContentType::Url) => InputRole::UrlInput,
            Some(InputContentType::Password) => InputRole::PasswordInput,
            Some(InputContentType::NewPassword) => InputRole::PasswordInput,
            Some(InputContentType::DateTime) => InputRole::DateTimeInput,
            Some(InputContentType::Birthdate) => InputRole::DateInput,
            _ => InputRole::TextInput,
        }
    }
}

/// The role an input announces unless it is given another (see
/// `spec_default_role`).
pub fn default_role(is_multi_line: bool, content_type: Option<InputContentType>) -> (r: InputRole)
    ensures
        r == spec_default_role(is_multi_line, content_type),
{
    if is_multi_line {
        return InputRole::MultilineTextInput;
    }
    match content_type {
        None => InputRole::TextInput,
        Some(InputContentType::TelephoneNumber) => InputRole::PhoneNumberInput,
        Some(InputContentType::EmailAddress) => InputRole::EmailInput,
        Some(InputContentType::Url) => InputRole::UrlInput,
        Some(InputContentType::Password) | Some(InputContentType::NewPassword) => InputRole::PasswordInput,
        Some(InputContentType::DateTime) => InputRole::DateTimeInput,
        Some(InputContentType::Birthdate) => InputRole::DateInput,
        Some(_) => InputRole::TextInput,
    }
}

/// Whether an input exposes its value to assistive technology: not when it
/// is masked, nor when its content is a password.
pub fn exposes_accessibility_value(masked: bool, content_type: Option<InputContentType>) -> (r: bool)
    ensures
        r == (!masked && !(content_type == Some(InputContentType::Password) || content_type == Some(
            InputContentType::NewPassword,
        ))),
{
    !masked && match content_type {
        Some(InputContentType::Password) | Some(InputContentType::NewPassword) => false,
        _ => true,
    }
}

} // verus!
