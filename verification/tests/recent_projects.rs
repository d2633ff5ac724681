use std::path::Path;

use gpui_base::recent_projects::{RecentProject, RecentProjects, MAX_RECENT_PROJECTS};

fn project(path: &str) -> RecentProject {
    RecentProject {
        path: path.to_string(),
        components: Path::new(path)
            .components()
            .map(|c| c.as_os_str().to_string_lossy().into_owned())
            .collect(),
    }
}

fn projects(items: &[&str]) -> Vec<RecentProject> {
    items.iter().map(|s| project(s)).collect()
}

fn owned(items: &[&str]) -> Vec<String> {
    items.iter().map(|s| s.to_string()).collect()
}

#[test]
fn loaded_list_drops_repeats_and_keeps_first_place() {
    let list = RecentProjects::from_entries(projects(&["/a", "/b", "/a", "/c", "/b"]));
    assert_eq!(list.paths(), owned(&["/a", "/b", "/c"]));
}

#[test]
fn spellings_of_one_directory_count_once() {
    let list = RecentProjects::from_entries(projects(&["/a/b", "/a//b/", "/a/./b", "/c"]));
    assert_eq!(list.paths(), owned(&["/a/b", "/c"]));
}

#[test]
fn loaded_list_is_capped() {
    let entries: Vec<String> = (0..15).map(|i| format!("/p{i}")).collect();
    let list = RecentProjects::from_entries(entries.iter().map(|s| project(s)).collect());
    assert_eq!(list.paths().len(), MAX_RECENT_PROJECTS);
    assert_eq!(list.paths(), entries[..MAX_RECENT_PROJECTS].to_vec());
}

#[test]
fn empty_list_has_no_projects() {
    assert!(RecentProjects::new().paths().is_empty());
    assert!(RecentProjects::from_entries(Vec::new()).paths().is_empty());
}

#[test]
fn opening_moves_project_to_front() {
    let mut list = RecentProjects::from_entries(projects(&["/a", "/b", "/c"]));
    list.push(project("/c"));
    assert_eq!(list.paths(), owned(&["/c", "/a", "/b"]));
    list.push(project("/d"));
    assert_eq!(list.paths(), owned(&["/d", "/c", "/a", "/b"]));
    list.push(project("/a/"));
    assert_eq!(list.paths(), owned(&["/a/", "/d", "/c", "/b"]));
}

#[test]
fn opening_on_a_full_list_drops_the_oldest() {
    let entries: Vec<String> = (0..MAX_RECENT_PROJECTS).map(|i| format!("/p{i}")).collect();
    let mut list = RecentProjects::from_entries(entries.iter().map(|s| project(s)).collect());
    list.push(project("/new"));
    let paths = list.paths();
    assert_eq!(paths.len(), MAX_RECENT_PROJECTS);
    assert_eq!(paths[0], "/new");
    assert_eq!(paths[1..].to_vec(), entries[..MAX_RECENT_PROJECTS - 1].to_vec());
}

#[test]
fn opening_the_newest_again_changes_nothing() {
    let mut list = RecentProjects::from_entries(projects(&["/a", "/b"]));
    list.push(project("/x"));
    let once = list.paths();
    list.push(project("/x"));
    assert_eq!(list.paths(), once);
}
