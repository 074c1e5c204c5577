use instar_core::paths::{moved, PathPart};

fn parts(path: &str) -> Vec<PathPart> {
    let mut out = vec![PathPart::RootDir];
    for name in path.split('/').filter(|n| !n.is_empty()) {
        out.push(PathPart::Normal(name.to_owned()));
    }
    out
}

fn text(parts: &[PathPart]) -> String {
    let mut out = String::new();
    for part in parts {
        match part {
            PathPart::Normal(name) => {
                out.push('/');
                out.push_str(name);
            }
            _ => {}
        }
    }
    out
}

#[test]
fn a_file_under_a_renamed_directory_moves_with_it() {
    let r = moved(&parts("/work/src/a/b.luau"), &parts("/work/src"), &parts("/work/lib"));
    assert_eq!(r.map(|v| text(&v)), Some("/work/lib/a/b.luau".to_owned()));
}

#[test]
fn the_renamed_path_itself_becomes_the_new_one() {
    let r = moved(&parts("/work/src"), &parts("/work/src"), &parts("/work/lib"));
    assert_eq!(r.map(|v| text(&v)), Some("/work/lib".to_owned()));
}

#[test]
fn paths_elsewhere_do_not_move() {
    assert!(moved(&parts("/work/other/a.luau"), &parts("/work/src"), &parts("/work/lib")).is_none());
    assert!(moved(&parts("/work/srcs/a.luau"), &parts("/work/src"), &parts("/work/lib")).is_none());
    assert!(moved(&parts("/work"), &parts("/work/src"), &parts("/work/lib")).is_none());
}
