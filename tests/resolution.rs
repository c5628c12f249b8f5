use conflink::{
    eval_cond, merge_scanned, parse_cond, replace_envs_in_path, Action, CondError, ConflinkConfig, DirsError,
    Environment, Event, LinkConfig, LinkState, Operation,
};

fn env_of(pairs: &[(&str, &str)]) -> Environment {
    let mut env = Environment::new();
    for (k, v) in pairs {
        env.set(k.to_string(), v.to_string());
    }
    env
}

fn link(path: &str, to: &str, cond: Option<&str>) -> LinkConfig {
    LinkConfig::new(path.to_string(), to.to_string(), cond.map(|c| c.to_string()))
}

fn find<'a>(map: &'a [(String, LinkConfig)], name: &str) -> Option<&'a LinkConfig> {
    map.iter().find(|(k, _)| k == name).map(|(_, l)| l)
}

#[test]
fn expand_unset_variable_drops_component() {
    let env = Environment::new();
    assert_eq!(replace_envs_in_path("/a/$UNSET/b".to_string(), &env), "/a/b");
}

#[test]
fn expand_set_variable_splices_value() {
    let env = env_of(&[("D", "p/q")]);
    assert_eq!(replace_envs_in_path("/x/$D/y".to_string(), &env), "/x/p/q/y");
}

#[test]
fn expand_absolute_value_restarts_path() {
    let env = env_of(&[("HOME", "/home/u")]);
    assert_eq!(replace_envs_in_path("$HOME/.bashrc".to_string(), &env), "/home/u/.bashrc");
}

#[test]
fn expand_without_dollar_is_identity() {
    let env = env_of(&[("A", "zzz")]);
    assert_eq!(replace_envs_in_path("//a//b/".to_string(), &env), "//a//b/");
}

#[test]
fn expand_later_setting_overrides() {
    let env = env_of(&[("A", "one"), ("A", "two")]);
    assert_eq!(replace_envs_in_path("/$A".to_string(), &env), "/two");
}

#[test]
fn expand_is_idempotent_on_example() {
    let env = env_of(&[("HOME", "/home/u"), ("SUB", "cfg/nvim")]);
    let once = replace_envs_in_path("$HOME/x/$SUB/$NOPE/init".to_string(), &env);
    assert_eq!(once, "/home/u/x/cfg/nvim/init");
    let twice = replace_envs_in_path(once.clone(), &env);
    assert_eq!(twice, once);
}

#[test]
fn hostname_condition_matches_host() {
    let env = Environment::new();
    assert_eq!(eval_cond("eq($hostname, myhost)", &env, "myhost"), Some(true));
    assert_eq!(eval_cond("eq($hostname, myhost)", &env, "otherhost"), Some(false));
}

#[test]
fn hostname_condition_ignores_environment() {
    let env = env_of(&[("hostname", "myhost")]);
    assert_eq!(eval_cond("eq($hostname, myhost)", &env, "box"), Some(false));
}

#[test]
fn env_condition_compares_value() {
    let env = env_of(&[("USER", "bob")]);
    assert_eq!(eval_cond("EQ($USER, bob)", &env, "h"), Some(true));
    assert_eq!(eval_cond("Eq( $USER ,alice )", &env, "h"), Some(false));
}

#[test]
fn unset_variable_condition_is_false() {
    let env = Environment::new();
    assert_eq!(eval_cond("eq($USER, bob)", &env, "h"), Some(false));
}

#[test]
fn operand_without_dollar_is_false() {
    let env = env_of(&[("USER", "bob")]);
    assert_eq!(eval_cond("eq(USER, bob)", &env, "h"), Some(false));
}

#[test]
fn condition_parse_errors() {
    assert!(matches!(parse_cond("eq$A, b)"), Err(CondError::MissingDelimiter)));
    assert!(matches!(parse_cond("eq($A b)"), Err(CondError::MissingDelimiter)));
    assert!(matches!(parse_cond("ne($A, b)"), Err(CondError::UnknownOperation)));
    assert!(matches!(parse_cond("eq(a)b,c"), Err(CondError::MisplacedDelimiter)));
    let env = Environment::new();
    assert_eq!(eval_cond("ne($A, b)", &env, "h"), None);
}

#[test]
fn condition_operands_are_trimmed() {
    let c = parse_cond("eq(  $A\t,  b c  )").ok().unwrap();
    assert_eq!(c.op, Operation::Eq);
    assert_eq!(c.lhs, "$A");
    assert_eq!(c.rhs, "b c");
}

#[test]
fn unconditional_declaration_applies() {
    let env = env_of(&[("HOME", "/home/u")]);
    let mut cfg = ConflinkConfig::new(None, None, false, vec![("A".to_string(), link("$HOME/x", "/etc/x", None))]);
    let mut map = Vec::new();
    cfg.prepare_link_configs(&env, "h", &mut map);
    let a = find(&map, "A").unwrap();
    assert!(a.apply);
    assert_eq!(a.link_path, "/home/u/x");
    assert_eq!(a.link_to, "/etc/x");
}

#[test]
fn false_condition_excludes_declaration() {
    let env = env_of(&[("USER", "bob")]);
    let mut cfg = ConflinkConfig::new(
        None,
        None,
        false,
        vec![
            ("A".to_string(), link("/tmp/a", "/etc/a", Some("eq($USER, alice)"))),
            ("B".to_string(), link("/tmp/b", "/etc/b", Some("eq($USER, bob)"))),
        ],
    );
    let mut map = Vec::new();
    cfg.prepare_link_configs(&env, "h", &mut map);
    assert!(find(&map, "A").is_none());
    assert!(find(&map, "B").unwrap().apply);
    assert_eq!(map.len(), 1);
}

#[test]
fn malformed_condition_excludes_and_reports() {
    let env = Environment::new();
    let mut cfg = ConflinkConfig::new(
        None,
        None,
        false,
        vec![("A".to_string(), link("/tmp/a", "/etc/a", Some("eq($USER bob")))],
    );
    let mut map = Vec::new();
    cfg.prepare_link_configs(&env, "h", &mut map);
    assert!(map.is_empty());
    let rejected = cfg.rejected_conditions();
    assert_eq!(rejected.len(), 1);
    assert_eq!(rejected[0].0, "A");
    assert!(matches!(rejected[0].1, CondError::MissingDelimiter));
}

#[test]
fn explicit_declaration_wins_over_scan() {
    let env = Environment::new();
    let mut cfg = ConflinkConfig::new(
        Some("/home/u".to_string()),
        Some("/pkg/dots".to_string()),
        true,
        vec![("foo".to_string(), link("/custom/foo", "/elsewhere/foo", None))],
    );
    let mut map = Vec::new();
    cfg.prepare_link_configs(&env, "h", &mut map);
    let dirs = cfg.link_all_dirs(&env).unwrap().ok().unwrap();
    assert_eq!(dirs, ("/home/u".to_string(), "/pkg/dots".to_string()));
    merge_scanned(&mut map, &dirs.0, &dirs.1, &vec![Some((0, "dots".to_string())), Some((1, "foo".to_string())), Some((1, "bar".to_string()))]);
    assert_eq!(map.len(), 2);
    let foo = find(&map, "foo").unwrap();
    assert_eq!(foo.link_path, "/custom/foo");
    assert_eq!(foo.link_to, "/elsewhere/foo");
    let bar = find(&map, "bar").unwrap();
    assert_eq!(bar.link_path, "/home/u/bar");
}

#[test]
fn scan_creates_link_for_child() {
    let env = Environment::new();
    let cfg = ConflinkConfig::new(Some("/home/u".to_string()), Some("/pkg/dots".to_string()), true, Vec::new());
    let (wd, fd) = cfg.link_all_dirs(&env).unwrap().ok().unwrap();
    let mut map = Vec::new();
    merge_scanned(&mut map, &wd, &fd, &vec![Some((0, "dots".to_string())), None, Some((1, "bashrc".to_string())), Some((1, "bashrc".to_string()))]);
    assert_eq!(map.len(), 1);
    assert_eq!(map[0].0, "bashrc");
    assert_eq!(map[0].1.link_path, "/home/u/bashrc");
    assert_eq!(map[0].1.link_to, "/pkg/dots/bashrc");
    assert!(map[0].1.apply);
    assert!(map[0].1.cond().is_none());
}

#[test]
fn scan_dirs_are_expanded() {
    let env = env_of(&[("HOME", "/home/u")]);
    let cfg = ConflinkConfig::new(Some("$HOME/".to_string()), Some("$HOME/dots".to_string()), true, Vec::new());
    let (wd, fd) = cfg.link_all_dirs(&env).unwrap().ok().unwrap();
    assert_eq!(wd, "/home/u");
    assert_eq!(fd, "/home/u/dots");
}

#[test]
fn scan_needs_both_dirs() {
    let env = Environment::new();
    let off = ConflinkConfig::new(Some("/w".to_string()), None, false, Vec::new());
    assert!(off.link_all_dirs(&env).is_none());
    let no_wd = ConflinkConfig::new(None, Some("/f".to_string()), true, Vec::new());
    assert!(matches!(no_wd.link_all_dirs(&env), Some(Err(DirsError::MissingWorkingDir))));
    let no_fd = ConflinkConfig::new(Some("/w".to_string()), None, true, Vec::new());
    assert!(matches!(no_fd.link_all_dirs(&env), Some(Err(DirsError::MissingLinkFromDir))));
    let none = ConflinkConfig::new(None, None, true, Vec::new());
    assert!(matches!(none.link_all_dirs(&env), Some(Err(DirsError::MissingBoth))));
}

#[test]
fn prepare_links_without_scan() {
    let env = Environment::new();
    let mut cfg = ConflinkConfig::new(None, None, false, vec![("A".to_string(), link("/tmp/x", "/etc/x", None))]);
    let links = cfg.prepare_links(&env);
    assert_eq!(links.len(), 1);
    assert_eq!(links[0].link_path, "/tmp/x");
    assert_eq!(links[0].link_to, "/etc/x");
    assert!(links[0].apply);
    assert!(cfg.dirs_error().is_none());
}

#[test]
fn prepare_links_records_missing_dir() {
    let env = Environment::new();
    let mut cfg = ConflinkConfig::new(None, Some("/f".to_string()), true, Vec::new());
    let links = cfg.prepare_links(&env);
    assert!(links.is_empty());
    assert_eq!(cfg.dirs_error(), Some(DirsError::MissingWorkingDir));
}

fn run(apply: bool, exists: bool, force: bool, removed: bool, created: bool) -> (LinkState, Vec<Action>) {
    let mut state = LinkState::start(apply);
    let mut actions = Vec::new();
    loop {
        let action = state.action();
        actions.push(action);
        let event = match action {
            Action::CheckExists => Event::Checked { exists },
            Action::Remove => Event::Removed { ok: removed },
            Action::Create => Event::Created { ok: created },
            Action::Done | Action::Abort => return (state, actions),
        };
        state = state.next(event, force);
    }
}

#[test]
fn absent_link_is_created() {
    let (state, actions) = run(true, false, false, true, true);
    assert_eq!(state, LinkState::Applied);
    assert_eq!(actions, vec![Action::CheckExists, Action::Create, Action::Done]);
}

#[test]
fn existing_link_is_skipped_without_force() {
    let (state, actions) = run(true, true, false, true, true);
    assert_eq!(state, LinkState::SkippedExisting);
    assert_eq!(actions, vec![Action::CheckExists, Action::Done]);
}

#[test]
fn existing_link_is_replaced_with_force() {
    let (state, actions) = run(true, true, true, true, true);
    assert_eq!(state, LinkState::Applied);
    assert_eq!(actions, vec![Action::CheckExists, Action::Remove, Action::Create, Action::Done]);
}

#[test]
fn failed_removal_aborts() {
    let (state, actions) = run(true, true, true, false, true);
    assert_eq!(state, LinkState::FailedRemoval);
    assert_eq!(actions.last(), Some(&Action::Abort));
}

#[test]
fn failed_create_continues() {
    let (state, actions) = run(true, false, false, true, false);
    assert_eq!(state, LinkState::FailedCreate);
    assert_eq!(actions.last(), Some(&Action::Done));
}

#[test]
fn non_applying_link_is_untouched() {
    let (state, actions) = run(false, true, true, true, true);
    assert_eq!(state, LinkState::NotApplied);
    assert_eq!(actions, vec![Action::Done]);
}

#[test]
fn unexpected_event_keeps_state() {
    assert_eq!(LinkState::Pending.next(Event::Created { ok: true }, true), LinkState::Pending);
}

#[test]
fn unset_condition_variable_is_reported() {
    let env = env_of(&[("SHELL", "zsh")]);
    let mut cfg = ConflinkConfig::new(
        None,
        None,
        false,
        vec![
            ("A".to_string(), link("/tmp/a", "/etc/a", Some("eq($USER, bob)"))),
            ("B".to_string(), link("/tmp/b", "/etc/b", Some("eq($SHELL, zsh)"))),
            ("C".to_string(), link("/tmp/c", "/etc/c", Some("eq($hostname, h)"))),
        ],
    );
    let mut map = Vec::new();
    cfg.prepare_link_configs(&env, "h", &mut map);
    assert_eq!(cfg.unset_variables(), &vec!["USER".to_string()]);
    assert!(find(&map, "A").is_none());
    assert!(find(&map, "B").is_some());
    assert!(find(&map, "C").is_some());
}

#[test]
fn scan_skips_walked_directory_itself() {
    let mut map = Vec::new();
    merge_scanned(&mut map, "/home/u", "/pkg/dots", &vec![Some((0, "dots".to_string()))]);
    assert!(map.is_empty());
}

#[test]
fn prepare_links_scans_root_directory() {
    let env = Environment::new();
    let mut cfg = ConflinkConfig::new(Some("/w".to_string()), Some("/".to_string()), true, Vec::new());
    let links = cfg.prepare_links(&env);
    let etc = links.iter().find(|l| l.link_to == "/etc").unwrap();
    assert_eq!(etc.link_path, "/w/etc");
    assert!(etc.apply());
    assert!(links.iter().all(|l| l.link_to != "/" && l.link_path() != "/w/"));
}

#[test]
fn link_getters_read_fields() {
    let l = link("/tmp/a", "/etc/a", Some("eq($A, b)"));
    assert_eq!(l.link_path(), "/tmp/a");
    assert_eq!(l.link_to(), "/etc/a");
    assert!(!l.apply());
    assert_eq!(l.cond().map(|c| c.as_str()), Some("eq($A, b)"));
}
