use win_rmdir_fast::safety::{
    check_path_safety, get_danger_reason, is_in_current_directory, is_system_directory, PathFacts,
    Platform, ResolvedPath, SafetyCheck,
};

fn unix(path: &str) -> PathFacts {
    PathFacts::new(Platform::Unix, path.to_string())
}

fn windows(path: &str) -> PathFacts {
    PathFacts::new(Platform::Windows, path.to_string())
}

fn resolved(text: &str, components: &[&str]) -> Option<ResolvedPath> {
    Some(ResolvedPath {
        text: text.to_string(),
        components: components.iter().map(|c| c.to_string()).collect(),
    })
}

#[test]
fn test_system_directory_detection() {
    assert!(is_system_directory(&PathFacts::new(Platform::Unix, String::from("/"))));
    assert!(is_system_directory(&PathFacts::new(Platform::Unix, String::from("/bin"))));
    assert!(is_system_directory(&PathFacts::new(Platform::Unix, String::from("/usr"))));
    assert!(!is_system_directory(&PathFacts::new(Platform::Unix, String::from("/tmp/test"))));

    assert!(is_system_directory(&PathFacts::new(Platform::Windows, String::from("C:\\"))));
    assert!(is_system_directory(&PathFacts::new(Platform::Windows, String::from("C:\\Windows"))));
    assert!(!is_system_directory(&PathFacts::new(
        Platform::Windows,
        String::from("C:\\temp\\test")
    )));
}

#[test]
fn every_protected_unix_directory_is_detected() {
    let protected = [
        "/", "/bin", "/boot", "/dev", "/etc", "/lib", "/lib64", "/proc", "/root", "/sbin", "/sys",
        "/usr", "/var",
    ];
    for path in protected.iter() {
        assert!(is_system_directory(&unix(path)), "{}", path);
    }
    for path in ["/home", "/usr/local", "/BIN", "/bin/", "", "bin", "/tmp", "/var/tmp"].iter() {
        assert!(!is_system_directory(&unix(path)), "{}", path);
    }
}

#[test]
fn every_protected_windows_directory_is_detected() {
    let protected = [
        "C:\\Windows",
        "C:\\Windows\\System32",
        "C:\\Program Files",
        "C:\\Program Files (x86)",
        "C:\\ProgramData",
        "C:\\",
        "C:\\Users",
    ];
    for path in protected.iter() {
        assert!(is_system_directory(&windows(path)), "{}", path);
    }
    for path in ["C:\\Users\\me", "C:\\Windows2", "D:\\Windows", "C:\\temp", ""].iter() {
        assert!(!is_system_directory(&windows(path)), "{}", path);
    }
}

#[test]
fn windows_names_match_in_any_case() {
    assert!(is_system_directory(&windows("c:\\windows")));
    assert!(is_system_directory(&windows("C:\\WINDOWS\\system32")));
    assert!(is_system_directory(&windows("c:\\program files (X86)")));
    assert!(is_system_directory(&windows("c:\\USERS")));
    // only ASCII letters are folded
    assert!(!is_system_directory(&windows("C:\\W\u{0130}ndows")));
    // on Unix the case counts
    assert!(!is_system_directory(&unix("/Bin")));
    assert!(!is_system_directory(&unix("/USR")));
}

#[test]
fn the_lists_belong_to_their_platform() {
    assert!(!is_system_directory(&windows("/bin")));
    assert!(!is_system_directory(&windows("/")));
    assert!(!is_system_directory(&unix("C:\\Windows")));
    assert!(!is_system_directory(&unix("C:\\")));
}

#[test]
fn drive_roots_are_protected_on_windows_only() {
    assert!(is_system_directory(&windows("D:\\")));
    assert!(is_system_directory(&windows("z:\\")));
    assert!(is_system_directory(&windows(":\\")));
    assert!(!is_system_directory(&windows("D:")));
    assert!(!is_system_directory(&windows("D:\\x")));
    assert!(!is_system_directory(&windows("DD:\\")));
    // three characters, but four bytes
    assert!(!is_system_directory(&windows("\u{e9}:\\")));
    assert!(!is_system_directory(&unix("D:\\")));
}

#[test]
fn canonical_form_is_checked_too() {
    let mut facts = unix("./link-to-etc");
    assert!(!is_system_directory(&facts));
    facts.canonical = resolved("/etc", &["/", "etc"]);
    assert!(is_system_directory(&facts));

    let mut facts = unix("../some/place");
    facts.canonical = resolved("/srv/some/place", &["/", "srv", "some", "place"]);
    assert!(!is_system_directory(&facts));

    let mut facts = windows("link");
    facts.canonical = resolved("c:\\programdata", &["c:", "\\", "programdata"]);
    assert!(is_system_directory(&facts));
}

#[test]
fn home_directory_is_protected() {
    let mut facts = unix("~");
    facts.canonical = resolved("/home/me", &["/", "home", "me"]);
    facts.home = resolved("/home/me", &["/", "home", "me"]);
    assert!(is_system_directory(&facts));

    // a directory inside the home directory is not
    facts.canonical = resolved("/home/me/build", &["/", "home", "me", "build"]);
    assert!(!is_system_directory(&facts));
    // nor is its parent
    facts.canonical = resolved("/home", &["/", "home"]);
    assert!(!is_system_directory(&facts));
    // nor a sibling with as many components
    facts.canonical = resolved("/home/you", &["/", "home", "you"]);
    assert!(!is_system_directory(&facts));

    // without a canonical form nothing is compared
    let mut facts = unix("/home/me");
    facts.home = resolved("/home/me", &["/", "home", "me"]);
    assert!(!is_system_directory(&facts));
}

#[test]
fn user_profile_counts_on_windows_only() {
    let mut facts = windows("profile");
    facts.canonical = resolved("C:\\Users\\me", &["C:", "\\", "Users", "me"]);
    facts.user_profile = resolved("C:\\Users\\me", &["C:", "\\", "Users", "me"]);
    assert!(is_system_directory(&facts));

    let mut facts = unix("profile");
    facts.canonical = resolved("/data/me", &["/", "data", "me"]);
    facts.user_profile = resolved("/data/me", &["/", "data", "me"]);
    assert!(!is_system_directory(&facts));
}

#[test]
fn current_directory_and_its_ancestors_are_found() {
    let mut facts = unix("..");
    facts.canonical = resolved("/work", &["/", "work"]);
    facts.current_dir = resolved("/work/project", &["/", "work", "project"]);
    facts.current_dir_canonical = resolved("/work/project", &["/", "work", "project"]);
    assert!(is_in_current_directory(&facts));

    // the working directory itself
    facts.canonical = resolved("/work/project", &["/", "work", "project"]);
    assert!(is_in_current_directory(&facts));

    // a directory below it, or beside it
    facts.canonical = resolved("/work/project/target", &["/", "work", "project", "target"]);
    assert!(!is_in_current_directory(&facts));
    facts.canonical = resolved("/work/pro", &["/", "work", "pro"]);
    assert!(!is_in_current_directory(&facts));
    facts.canonical = resolved("/other", &["/", "other"]);
    assert!(!is_in_current_directory(&facts));
}

#[test]
fn working_directory_behind_a_link_is_found_by_its_canonical_form() {
    let mut facts = unix("/real/project");
    facts.canonical = resolved("/real/project", &["/", "real", "project"]);
    facts.current_dir = resolved("/link/project", &["/", "link", "project"]);
    facts.current_dir_canonical = resolved("/real/project", &["/", "real", "project"]);
    assert!(is_in_current_directory(&facts));
}

#[test]
fn nothing_is_found_without_the_facts() {
    let mut facts = unix("/work");
    assert!(!is_in_current_directory(&facts));
    facts.canonical = resolved("/work", &["/", "work"]);
    assert!(!is_in_current_directory(&facts));
    facts.current_dir = resolved("/work", &["/", "work"]);
    assert!(!is_in_current_directory(&facts));
    facts.current_dir_canonical = resolved("/work", &["/", "work"]);
    assert!(is_in_current_directory(&facts));
    facts.canonical = None;
    assert!(!is_in_current_directory(&facts));
    facts.canonical = resolved("/work", &["/", "work"]);
    facts.current_dir = None;
    assert!(!is_in_current_directory(&facts));
}

#[test]
fn danger_reason_names_the_path() {
    assert_eq!(
        get_danger_reason(&unix("/etc")),
        Some(String::from(
            "'/etc' is a system directory - deleting it could break your system"
        ))
    );

    let mut facts = unix("..");
    facts.canonical = resolved("/work", &["/", "work"]);
    facts.current_dir = resolved("/work/project", &["/", "work", "project"]);
    facts.current_dir_canonical = resolved("/work/project", &["/", "work", "project"]);
    assert_eq!(
        get_danger_reason(&facts),
        Some(String::from("'..' contains or is your current working directory"))
    );

    assert_eq!(get_danger_reason(&unix("/tmp/test")), None);
}

#[test]
fn system_directory_comes_before_the_working_directory() {
    let mut facts = unix("/usr");
    facts.canonical = resolved("/usr", &["/", "usr"]);
    facts.current_dir = resolved("/usr/share", &["/", "usr", "share"]);
    facts.current_dir_canonical = resolved("/usr/share", &["/", "usr", "share"]);
    assert!(is_in_current_directory(&facts));
    assert_eq!(
        get_danger_reason(&facts),
        Some(String::from(
            "'/usr' is a system directory - deleting it could break your system"
        ))
    );
}

#[test]
fn system_directories_cannot_be_overridden() {
    match check_path_safety(&windows("C:\\Windows")) {
        SafetyCheck::Dangerous { reason, can_override } => {
            assert_eq!(
                reason,
                "'C:\\Windows' is a system directory - deleting it could break your system"
            );
            assert!(!can_override);
        }
        SafetyCheck::Safe => panic!("a system directory is not safe"),
    }
}

#[test]
fn working_directory_can_be_overridden() {
    let mut facts = unix("/work");
    facts.canonical = resolved("/work", &["/", "work"]);
    facts.current_dir = resolved("/work", &["/", "work"]);
    facts.current_dir_canonical = resolved("/work", &["/", "work"]);
    match check_path_safety(&facts) {
        SafetyCheck::Dangerous { reason, can_override } => {
            assert_eq!(reason, "'/work' contains or is your current working directory");
            assert!(can_override);
        }
        SafetyCheck::Safe => panic!("the working directory is not safe"),
    }
}

#[test]
fn ordinary_directory_is_safe() {
    let mut facts = unix("/tmp/test_safety");
    facts.canonical = resolved("/tmp/test_safety", &["/", "tmp", "test_safety"]);
    facts.home = resolved("/home/me", &["/", "home", "me"]);
    facts.current_dir = resolved("/home/me/src", &["/", "home", "me", "src"]);
    facts.current_dir_canonical = resolved("/home/me/src", &["/", "home", "me", "src"]);
    match check_path_safety(&facts) {
        SafetyCheck::Safe => {}
        SafetyCheck::Dangerous { .. } => panic!("Temp directory should be safe"),
    }
}
