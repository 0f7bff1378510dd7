use playground::change_filetype::{plan_run, CFTConfig, RunPlan};

fn strings(args: &[&str]) -> Vec<String> {
    args.iter().map(|s| s.to_string()).collect()
}

#[test]
fn build_takes_exactly_three_arguments() {
    let conf = CFTConfig::build(strings(&["images", ".webp", ".png"])).ok().unwrap();
    assert_eq!(conf.path, "images");
    assert_eq!(conf.from, ".webp");
    assert_eq!(conf.to, ".png");
    for args in [vec![], strings(&["a"]), strings(&["a", "b"]), strings(&["a", "b", "c", "d"])] {
        match CFTConfig::build(args) {
            Err(e) => assert_eq!(e, "3 Arguments required."),
            Ok(_) => panic!("accepted a wrong number of arguments"),
        }
    }
}

#[test]
fn new_file_name_renames_matching_extension() {
    let conf = CFTConfig::build(strings(&["images", ".webp", ".png"])).ok().unwrap();
    assert_eq!(conf.new_file_name("cat", "webp"), Some("cat.png".to_string()));
    assert_eq!(conf.new_file_name("cat", "png"), None);
    assert_eq!(conf.new_file_name("cat", ".webp"), None);
    assert_eq!(conf.new_file_name("archive.tar", "webp"), Some("archive.tar.png".to_string()));
}

#[test]
fn plan_run_cases() {
    assert!(matches!(plan_run(vec![]), RunPlan::MissingArguments));
    assert!(matches!(plan_run(strings(&["help"])), RunPlan::Help));
    assert!(matches!(plan_run(strings(&["help", "a", "b"])), RunPlan::Help));
    match plan_run(strings(&["dir"])) {
        RunPlan::Invalid(e) => assert_eq!(e, "3 Arguments required."),
        _ => panic!("expected an error"),
    }
    match plan_run(strings(&["dir", ".a", ".b"])) {
        RunPlan::Run(c) => {
            assert_eq!(c.path, "dir");
            assert_eq!(c.from, ".a");
            assert_eq!(c.to, ".b");
        },
        _ => panic!("expected a configuration"),
    }
}
