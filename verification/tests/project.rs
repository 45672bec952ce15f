use foldquery::project::{
    cad_import_script, check_editable, missing_project, now_millis, order_by_recency, project_source, touch,
    ProjectInfo, ProjectMode, DEFAULT_SCRIPT,
};

fn info(id: &str, updated_at: u64) -> ProjectInfo {
    ProjectInfo::new(id.to_string(), format!("Project {id}"), updated_at, ProjectMode::Code)
}

#[test]
fn projects_listed_most_recent_first() {
    let sorted = order_by_recency(vec![info("a", 10), info("b", 30), info("c", 20), info("d", 30)]);
    let ids: Vec<&str> = sorted.iter().map(|p| p.id.as_str()).collect();
    assert_eq!(ids, vec!["b", "d", "c", "a"]);
    assert!(order_by_recency(Vec::new()).is_empty());
}

#[test]
fn touching_updates_only_the_time() {
    let mut p = ProjectInfo::new("x".to_string(), "Box".to_string(), 5, ProjectMode::Mesh);
    assert_eq!((p.created_at, p.updated_at), (5, 5));
    touch(&mut p, 99);
    assert_eq!(p.updated_at, 99);
    assert_eq!(p.created_at, 5);
    assert_eq!(p.name, "Box");
    assert_eq!(p.mode, ProjectMode::Mesh);
}

#[test]
fn timestamps_from_the_clock() {
    assert_eq!(now_millis(None), 0);
    assert_eq!(now_millis(Some(1_700_000_000_123)), 1_700_000_000_123);
    assert_eq!(now_millis(Some((1u128 << 64) + 7)), 7);
}

#[test]
fn legacy_mode_is_code() {
    assert_eq!(ProjectMode::default(), ProjectMode::Code);
}

#[test]
fn loaded_source_follows_the_mode() {
    assert_eq!(project_source(ProjectMode::Mesh, Some("stray".to_string())), "");
    assert_eq!(project_source(ProjectMode::Code, Some("x = 1".to_string())), "x = 1");
    assert_eq!(project_source(ProjectMode::Code, None), DEFAULT_SCRIPT);
    assert!(DEFAULT_SCRIPT.contains("show_object(result)"));
}

#[test]
fn mesh_projects_refuse_script_writes() {
    assert_eq!(check_editable(ProjectMode::Code), Ok(()));
    assert_eq!(
        check_editable(ProjectMode::Mesh),
        Err("Imported mesh projects cannot be edited as code".to_string())
    );
}

#[test]
fn project_texts() {
    assert_eq!(missing_project("abc"), "Project 'abc' does not exist");
    let script = cad_import_script("/tmp/p/model.step");
    assert_eq!(
        script,
        "import cadquery as cq\n\n# Imported CAD model\nresult = cq.importers.importStep(r\"/tmp/p/model.step\")\n\nshow_object(result)\n"
    );
    assert!(script.contains("cq.importers.importStep"));
}
