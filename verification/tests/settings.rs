use nymx::alias::{resolve_alias, AliasesFile};
use nymx::config::{
    find_config_file, get_base_dir, BaseDir, Config, ConfigFinds, ConfigPlace, NymxConfig, SshSection,
};
use nymx::get::{
    check_dir_command, check_login, delete_command, dir_exists, get_file_size_remote,
    get_in_use_files, in_use_command, is_in_use, list_command, list_remote_files, next_step,
    parse_host, plan_login, port_of, remote_dir, remote_path, size_command, FetchStep, Fetched,
    Login, LoginError, LoginPlan, Tally,
};
use nymx::gui::{extract_prefix_and_folder, part_prefix_of, Action, NymXApp, StartPlan};
use nymx::ssh::{socks5_request, Socks5Error, Socks5Exchange, Socks5Stage};
use nymx::string_map::StringMap;

fn some(s: &str) -> Option<String> {
    Some(s.to_string())
}

fn contacts() -> Config {
    let mut config = Config::default();
    config.add_contact("bob", "BobNymAddress");
    config.add_contact("alice", "AliceNymAddress");
    config
}

#[test]
fn aliases_are_resolved() {
    let mut config = contacts();
    assert_eq!(config.resolve("alice"), some("AliceNymAddress"));
    assert_eq!(config.resolve("carol"), None);
    assert_eq!(config.address_of("bob"), "BobNymAddress");
    assert_eq!(config.address_of("X.Y@Z"), "X.Y@Z");
    config.add_contact("alice", "new");
    assert_eq!(config.resolve("alice"), some("new"));
    assert!(config.remove_contact("alice"));
    assert!(!config.remove_contact("alice"));
    assert_eq!(config.resolve("alice"), None);
    assert_eq!(config.resolve("bob"), some("BobNymAddress"));
}

#[test]
fn an_unknown_alias_is_an_error() {
    let mut aliases = StringMap::new();
    aliases.insert("alice".to_string(), "A".to_string());
    let file = AliasesFile { aliases };
    assert_eq!(resolve_alias("alice", &file, "\"nymx.json\""), Ok("A".to_string()));
    assert_eq!(
        resolve_alias("bob", &file, "\"nymx.json\""),
        Err("Alias 'bob' not found in \"nymx.json\"".to_string())
    );
}

#[test]
fn settings_under_ssh_count() {
    let flat = NymxConfig {
        host: some("flat"),
        port: Some(1),
        username: some("u"),
        ..NymxConfig::default()
    };
    let section = SshSection {
        host: some("nested"),
        port: None,
        username: None,
        socks5_proxy: some("127.0.0.1:9050"),
    };
    let config = flat.with_ssh_section(&section);
    assert_eq!(config.host, some("nested"));
    assert_eq!(config.port, Some(1));
    assert_eq!(config.username, some("u"));
    assert_eq!(config.socks5_proxy, some("127.0.0.1:9050"));
    assert!(config.aliases.is_none());
}

#[test]
fn the_first_place_with_settings_counts() {
    let none = ConfigFinds {
        working_dir: false, program_dir: false, app_data: false, user_profile: false, home: false,
    };
    assert_eq!(find_config_file(false, none), None);
    let all = ConfigFinds {
        working_dir: true, program_dir: true, app_data: true, user_profile: true, home: true,
    };
    assert_eq!(find_config_file(true, all), Some(ConfigPlace::WorkingDir));
    let user = ConfigFinds { working_dir: false, program_dir: false, ..all };
    assert_eq!(find_config_file(true, user), Some(ConfigPlace::AppData));
    assert_eq!(find_config_file(false, user), Some(ConfigPlace::Home));
    let profile = ConfigFinds { user_profile: true, ..none };
    assert_eq!(find_config_file(true, profile), Some(ConfigPlace::UserProfile));
    assert_eq!(find_config_file(false, profile), None);
    let program = ConfigFinds { program_dir: true, ..none };
    assert_eq!(find_config_file(false, program), Some(ConfigPlace::ProgramDir));
}

#[test]
fn the_base_directory_is_chosen() {
    assert_eq!(get_base_dir(true, false, true), BaseDir::ProgramDir);
    assert_eq!(get_base_dir(false, true, true), BaseDir::ProgramDir);
    assert_eq!(get_base_dir(false, false, true), BaseDir::Home);
    assert_eq!(get_base_dir(false, false, false), BaseDir::ProgramDir);
}

#[test]
fn hosts_may_name_a_user() {
    assert_eq!(parse_host("me@host"), ("host".to_string(), "me".to_string()));
    assert_eq!(parse_host("host"), ("host".to_string(), "".to_string()));
    assert_eq!(parse_host("@host"), ("host".to_string(), "".to_string()));
}

fn plan(host: Option<&str>, username: Option<&str>) -> LoginPlan {
    plan_login(&NymxConfig {
        host: host.map(String::from),
        username: username.map(String::from),
        ..NymxConfig::default()
    })
}

#[test]
fn logins_come_from_the_settings() {
    assert!(matches!(plan(None, Some("u")), LoginPlan::NoHost));
    match plan(Some("me@h"), Some("u")) {
        LoginPlan::Known(l) => assert_eq!((l.host.as_str(), l.username.as_str()), ("h", "me")),
        _ => panic!("not known"),
    }
    match plan(Some("h"), Some("u")) {
        LoginPlan::Known(l) => assert_eq!((l.host.as_str(), l.username.as_str()), ("h", "u")),
        _ => panic!("not known"),
    }
    match plan(Some("h"), None) {
        LoginPlan::AskUsername(host) => assert_eq!(host, "h"),
        _ => panic!("known"),
    }
    assert_eq!(port_of(&NymxConfig::default()), 22);
    assert_eq!(port_of(&NymxConfig { port: Some(2222), ..NymxConfig::default() }), 2222);
}

#[test]
fn incomplete_logins_are_refused() {
    let whole = Login { host: "h".to_string(), username: "u".to_string() };
    assert!(check_login(whole).is_ok());
    for (host, username) in [("", "u"), ("h", ""), ("", "")] {
        let login = Login { host: host.to_string(), username: username.to_string() };
        assert!(matches!(check_login(login), Err(LoginError::Incomplete)));
    }
    assert_eq!(LoginError::NoHost.message(), "No host specified. Provide it via nymx.json");
    assert_eq!(LoginError::Incomplete.message(), "Username and host are required");
}

#[test]
fn commands_are_put_together() {
    let dir = remote_dir("me");
    assert_eq!(dir, "/home/me/received");
    assert_eq!(remote_path(&dir, "f"), "/home/me/received/f");
    assert_eq!(
        check_dir_command(&dir),
        "test -d /home/me/received && echo 'exists' || echo 'not'"
    );
    assert_eq!(
        in_use_command(&dir),
        "lsof +D /home/me/received | awk 'NR >1 {print $9}' | sort -u"
    );
    assert_eq!(
        list_command(&dir),
        "find /home/me/received -maxdepth 1 -type f -printf '%f\n'"
    );
    assert_eq!(size_command("/x"), "stat -c %s /x");
    assert_eq!(delete_command("/x"), "rm -f /x");
}

#[test]
fn answers_of_the_server_are_read() {
    assert!(dir_exists(" exists\n"));
    assert!(!dir_exists("not\n"));
    assert_eq!(list_remote_files("a\n\nb\n"), vec!["a".to_string(), "b".to_string()]);
    assert_eq!(
        get_in_use_files("/d/a\nNAME\n\n/d/b\n/d/a\n"),
        vec!["/d/a".to_string(), "/d/b".to_string()]
    );
    let paths = vec!["/d/a.txt".to_string()];
    assert!(is_in_use(&paths, "a.txt"));
    assert!(is_in_use(&paths, ".txt"));
    assert!(!is_in_use(&paths, "b.txt"));
    assert_eq!(get_file_size_remote("123\n"), Some(123));
    assert_eq!(get_file_size_remote("stat: no"), None);
}

#[test]
fn files_are_deleted_only_after_their_download() {
    assert_eq!(next_step(true, None, None), FetchStep::Done(Fetched::Skipped));
    assert_eq!(next_step(false, None, None), FetchStep::Download);
    assert_eq!(next_step(false, Some(false), None), FetchStep::Done(Fetched::NotDownloaded));
    assert_eq!(next_step(false, Some(true), None), FetchStep::Delete);
    assert_eq!(next_step(false, Some(true), Some(false)), FetchStep::Done(Fetched::NotDeleted));
    assert_eq!(next_step(false, Some(true), Some(true)), FetchStep::Done(Fetched::Moved));
    let answers = [None, Some(false), Some(true)];
    for in_use in [false, true] {
        for downloaded in answers {
            for deleted in answers {
                if next_step(in_use, downloaded, deleted) == FetchStep::Delete {
                    assert!(!in_use && downloaded == Some(true));
                }
            }
        }
    }
}

#[test]
fn fetched_files_are_counted() {
    let mut tally = Tally::new();
    for what in [
        Fetched::Skipped, Fetched::Moved, Fetched::Moved, Fetched::NotDeleted, Fetched::NotDownloaded,
    ] {
        tally.record(what);
    }
    assert_eq!(tally, Tally { downloaded: 3, failed: 2, deleted: 2, skipped: 1 });
}

fn exchange(answers: &[&[u8]]) -> Socks5Stage {
    let (mut e, greeting) = Socks5Exchange::start("host".to_string(), 443);
    assert_eq!(greeting, vec![5, 1, 0]);
    for answer in answers {
        assert_eq!(e.stage.to_read(), answer.len());
        let sent = e.socks5_connect(answer);
        if e.stage == Socks5Stage::Reply {
            assert_eq!(sent, Some(vec![5, 1, 0, 3, 4, b'h', b'o', b's', b't', 1, 187]));
        } else {
            assert_eq!(sent, None);
        }
    }
    e.stage
}

#[test]
fn a_proxy_connects() {
    assert_eq!(exchange(&[&[5, 0], &[5, 0, 0, 1], &[0; 6]]), Socks5Stage::Connected);
    assert_eq!(exchange(&[&[5, 0], &[5, 0, 0, 3], &[3], &[0; 5]]), Socks5Stage::Connected);
    assert_eq!(exchange(&[&[5, 0], &[5, 0, 0, 4], &[0; 18]]), Socks5Stage::Connected);
}

#[test]
fn a_proxy_refuses() {
    for (answers, error, text) in [
        (vec![[4u8, 0].to_vec()], Socks5Error::HandshakeFailed, "SOCKS5 handshake failed"),
        (
            vec![[5u8, 0].to_vec(), [5u8, 1, 0, 1].to_vec()],
            Socks5Error::ConnectFailed,
            "SOCKS5 CONNECT failed",
        ),
        (
            vec![[5u8, 0].to_vec(), [5u8, 0, 0, 2].to_vec()],
            Socks5Error::InvalidAddressType,
            "Invalid SOCKS5 response ATYP",
        ),
    ] {
        let slices: Vec<&[u8]> = answers.iter().map(|a| a.as_slice()).collect();
        assert_eq!(exchange(&slices), Socks5Stage::Failed(error));
        assert_eq!(error.message(), text);
    }
}

#[test]
fn a_long_host_name_has_its_length_cut() {
    let request = socks5_request(&"h".repeat(258), 80);
    assert_eq!(request[4], 2);
    assert_eq!(request.len(), 5 + 258 + 2);
}

#[test]
fn the_window_opens() {
    let app = NymXApp::new(contacts());
    assert_eq!(app.sorted_nymx_aliases, vec!["alice".to_string(), "bob".to_string()]);
    assert_eq!(app.selected_nymx_alias, "alice");
    assert_eq!(app.receive_path, "./received");
    assert_eq!(app.log, "NymX ready.\n");
    assert!(app.dark_mode && !app.is_running);
    assert_eq!(NymXApp::new(Config::default()).selected_nymx_alias, "");
}

#[test]
fn contacts_are_added_and_deleted() {
    let mut app = NymXApp::new(contacts());
    app.show_add_contact = true;
    app.new_alias = "  ".to_string();
    app.new_address = "x".to_string();
    assert!(!app.add_contact());
    assert!(app.show_add_contact);
    app.new_alias = "aaron".to_string();
    assert!(app.add_contact());
    app.contact_saved(None);
    assert_eq!(app.selected_nymx_alias, "aaron");
    assert_eq!(app.sorted_nymx_aliases[0], "aaron");
    assert!(!app.show_add_contact);
    assert_eq!(
        app.log,
        "NymX ready.\n[INFO] Config saved successfully.\n[INFO] Added contact: aaron -> x\n"
    );
    app.log = String::new();
    app.ask_delete();
    assert!(app.asks_delete());
    assert!(app.delete_contact());
    app.deletion_saved(some("full"));
    assert_eq!(app.selected_nymx_alias, "alice");
    assert_eq!(app.log, "[ERROR] Failed to save config: full\n[INFO] Deleted contact: aaron\n");
    assert!(!app.asks_delete());
    app.contact_to_delete = "nobody".to_string();
    app.show_delete_confirmation = true;
    assert!(!app.delete_contact());
    assert!(!app.show_delete_confirmation);
    app.new_alias = "x".to_string();
    app.cancel_add();
    assert_eq!(app.new_alias, "");
    app.ask_delete();
    app.cancel_delete();
    assert!(!app.asks_delete());
}

#[test]
fn tasks_start() {
    let mut app = NymXApp::new(contacts());
    assert!(!app.start_enabled(false, true));
    app.file_path = "/d/movie.part01.mp4".to_string();
    assert!(app.start_enabled(false, false));
    assert!(!app.start_enabled(true, false));
    match app.start_action(false, &some("/d"), &some("movie.part01.mp4")) {
        StartPlan::SendFile { address, path } => {
            assert_eq!(address, "AliceNymAddress");
            assert_eq!(path, "/d/movie.part01.mp4");
        },
        _ => panic!("no file"),
    }
    app.mode_parts = true;
    assert!(!app.start_enabled(false, false));
    assert!(app.start_enabled(false, true));
    match app.start_action(false, &some("/d"), &some("movie.part01.mp4")) {
        StartPlan::SendParts { address, folder, prefix } => {
            assert_eq!(address, "AliceNymAddress");
            assert_eq!(folder, "/d");
            assert_eq!(prefix, "movie.part");
        },
        _ => panic!("no parts"),
    }
    app.action = Action::Receive;
    match app.start_action(false, &None, &None) {
        StartPlan::Receive { path } => assert_eq!(path, "./received"),
        _ => panic!("no folder"),
    }
    app.receive_path = " ".to_string();
    assert!(!app.start_enabled(false, true));
    app.log = String::new();
    assert!(matches!(app.start_action(true, &None, &None), StartPlan::Nothing));
    app.receive_folder_failed("full");
    app.folder_missing("/d");
    app.task_started();
    assert!(app.is_running);
    assert!(matches!(app.start_action(false, &None, &None), StartPlan::Nothing));
    assert!(app.task_message("hello"));
    assert!(!app.task_message("__DONE__"));
    assert!(!app.is_running);
    app.is_running = true;
    app.quit_session();
    app.task_finished();
    assert!(!app.is_running);
    assert_eq!(
        app.log,
        "[WARN] Previous thread still active. Please wait.\n\
         [ERROR] Cannot create receive folder: full\n[ERROR] Folder '/d' does not exist.\n\
         [INFO] Starting task…\nhello\n[INFO] Session quit by user.\n"
    );
    app.toggle_theme();
    assert!(!app.dark_mode);
}

#[test]
fn prefixes_of_parts_lose_extension_and_number() {
    assert_eq!(part_prefix_of("movie.mp4.part007"), "movie.mp");
    assert_eq!(part_prefix_of("movie12"), "movie");
    assert_eq!(part_prefix_of("a1b2.bin"), "a1b");
    assert_eq!(part_prefix_of(".hidden"), "");
    assert_eq!(
        extract_prefix_and_folder(&None, &None),
        (".".to_string(), "".to_string())
    );
    assert_eq!(
        extract_prefix_and_folder(&some(""), &some("x1")),
        ("".to_string(), "x".to_string())
    );
}
