use plogcat::adb::{app_pid, front_app};
use plogcat::cli::{adb_args, decimal_string, logcat_args, parse_u64, App, Level};
use plogcat::from_tag_list;

#[test]
fn level_names() {
    let l: Level = "verbose".parse().unwrap();
    assert_eq!(l.letter(), 'V');
    assert_eq!("D".parse::<Level>().unwrap().letter(), 'D');
    assert_eq!("Info".parse::<Level>().unwrap().letter(), 'I');
    assert_eq!("WARNING".parse::<Level>().unwrap().letter(), 'W');
    assert_eq!("e".parse::<Level>().unwrap().letter(), 'E');
    assert_eq!("fAtAl".parse::<Level>().unwrap().letter(), 'F');
    assert!("warn".parse::<Level>().is_err());
    assert!("".parse::<Level>().is_err());
    assert_eq!(Level::default().letter(), 'V');
}

#[test]
fn level_filter_spec() {
    assert_eq!(Level::default().filter_spec(), None);
    assert_eq!(Level::from_name("w").unwrap().filter_spec(), Some("*:W".to_string()));
    assert_eq!(Level::from_name("fatal").unwrap().filter_spec(), Some("*:F".to_string()));
}

#[test]
fn app_from_text() {
    assert!(matches!("1234".parse::<App>(), Ok(App::Pid(1234))));
    assert!(matches!(App::from_text("+7"), App::Pid(7)));
    match App::from_text("com.example.app") {
        App::PackageName(name) => assert_eq!(name, "com.example.app"),
        App::Pid(_) => panic!("not a pid"),
    }
    assert!(matches!(App::from_text("18446744073709551616"), App::PackageName(_)));
}

#[test]
fn u64_reading() {
    assert_eq!(parse_u64("0"), Some(0));
    assert_eq!(parse_u64("+42"), Some(42));
    assert_eq!(parse_u64("18446744073709551615"), Some(u64::MAX));
    assert_eq!(parse_u64("18446744073709551616"), None);
    assert_eq!(parse_u64(""), None);
    assert_eq!(parse_u64("+"), None);
    assert_eq!(parse_u64("-1"), None);
    assert_eq!(parse_u64("12a"), None);
    assert_eq!(parse_u64(" 12"), None);
}

#[test]
fn tag_list_regex() {
    let tags = vec!["ActivityManager".to_string(), "flutter".to_string()];
    assert_eq!(plogcat::tag_regex::tag_pattern(&tags), "^(ActivityManager|flutter)$");
    let re = from_tag_list(&tags).expect("valid");
    assert!(re.is_match("flutter"));
    assert!(!re.is_match("flutters"));
    assert!(from_tag_list(&[]).is_err());
    assert_eq!(plogcat::tag_regex::tag_pattern(&[]), "^)$");
    assert!(from_tag_list(&["(".to_string()]).is_err());
}

#[test]
fn front_app_from_dumpsys() {
    let out = "  Stack #1:\n    TaskRecord{4c1 #23 A=com.example.app U=0 sz=1}\n";
    match front_app(out) {
        Some(App::PackageName(name)) => assert_eq!(name, "com.example.app"),
        _ => panic!("expected a package"),
    }
    assert!(front_app("no tasks here").is_none());
    assert!(front_app("TaskRecord{4c1 #23 U=0}").is_none());
    assert!(front_app(" A=x TaskRecord").is_none());
    match front_app("TaskRecord A=last") {
        Some(App::PackageName(name)) => assert_eq!(name, "last"),
        _ => panic!("expected a package"),
    }
}

#[test]
fn pid_from_ps() {
    let ps = "USER  PID   PPID  NAME\r\nroot  1     0     init\nu0_a5 \t 4321  1 com.example.app\n";
    assert_eq!(app_pid(ps, "com.example.app"), Some(4321));
    assert_eq!(app_pid(ps, "init"), Some(1));
    assert_eq!(app_pid(ps, "missing"), None);
    // the first line that names the app decides, even if its column is no number
    assert_eq!(app_pid("x abc name\ny 7 name\n", "name"), None);
    // a line with a single column does not decide
    assert_eq!(app_pid("name\ny 7 name", "name"), Some(7));
}

#[test]
fn decimal_strings() {
    assert_eq!(decimal_string(0), "0");
    assert_eq!(decimal_string(7), "7");
    assert_eq!(decimal_string(10), "10");
    assert_eq!(decimal_string(1234567890), "1234567890");
    assert_eq!(decimal_string(u64::MAX), "18446744073709551615");
}

#[test]
fn adb_and_logcat_arguments() {
    assert!(adb_args(&None, false, false).is_empty());
    let device = adb_args(&Some("emulator-5554".to_string()), true, true);
    assert_eq!(device, vec!["-s", "emulator-5554", "-d", "-e"]);
    let buffers = vec!["main".to_string(), "crash".to_string()];
    let regexes = vec!["foo.*".to_string()];
    let args = logcat_args(device, &buffers, &regexes, Some(100), true, true, &Some("2024-01-02 03:04:05.0".to_string()));
    assert_eq!(
        args,
        vec![
            "-s", "emulator-5554", "-d", "-e", "logcat", "-b", "main", "-b", "crash", "-e", "foo.*", "-m", "100", "-d",
            "-L", "-T", "2024-01-02 03:04:05.0",
        ]
    );
    let plain = logcat_args(Vec::new(), &Vec::new(), &Vec::new(), None, false, false, &None);
    assert_eq!(plain, vec!["logcat"]);
}
