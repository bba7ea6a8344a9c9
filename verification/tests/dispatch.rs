use skipper::snapshot::App;
use skipper::Cmd;

fn owned(args: &[&str]) -> Vec<String> {
    args.iter().map(|a| a.to_string()).collect()
}

type Caps = (
    Option<Vec<String>>,
    Option<Vec<String>>,
    Option<Vec<String>>,
    Option<Vec<String>>,
);

fn capture(sel: Option<skipper::engine::Selection>, args: &[String]) -> Caps {
    let mut caps: Caps = (None, None, None, None);
    if let Some(s) = sel {
        let rest = args[s.args_at..].to_vec();
        match s.handler {
            1 => caps.0 = Some(rest),
            2 => caps.1 = Some(rest),
            3 => caps.2 = Some(rest),
            4 => caps.3 = Some(rest),
            _ => {}
        }
    }
    caps
}

#[test]
fn no_subcommands_no_flags() {
    let run = |args: &[String]| {
        let mut dests: Vec<u32> = Vec::new();
        let sel = Cmd::root("first").run(1).execute_with(&args.to_vec(), &mut dests);
        sel.map(|s| args[s.args_at..].to_vec())
    };

    let args = vec![
        owned(&["first"]),
        owned(&["first", "one"]),
        owned(&["first", "one", "two"]),
        owned(&["first", "one", "two", "three"]),
        owned(&["first", "one", "two", "three", "four"]),
    ];

    for a in args {
        let captured = run(&a);

        // If we have a single command and no subcommands or flags, all arguments
        // must be passed to the top-level command.
        let c = captured.expect("command should have run");

        assert_eq!(
            c,
            a[1..],
            "arguments after the name of the command must be passed to run"
        );
    }
}

fn one_level_tree() -> Cmd {
    Cmd::root("first")
        .run(1)
        .subcmd(Cmd::new("second").run(2))
        .unwrap()
        .subcmd(Cmd::new("third").run(3))
        .unwrap()
        .subcmd(Cmd::new("fourth").run(4))
        .unwrap()
}

#[test]
fn one_level_subcommands_no_flags() {
    let run = |args: &[String]| {
        let mut dests: Vec<u32> = Vec::new();
        let sel = one_level_tree().execute_with(&args.to_vec(), &mut dests);
        capture(sel, args)
    };

    let args = vec![
        owned(&["first", "second", "one"]),
        owned(&["first", "second", "one", "two"]),
        owned(&["first", "second", "one", "two", "three"]),
        owned(&["first", "second", "one", "two", "three", "four"]),
    ];

    for a in args {
        let (captured_first, captured_second, captured_third, captured_fourth) = run(&a);

        assert!(
            captured_first.is_none(),
            "should not have run the outer command"
        );

        assert!(
            captured_third.is_none(),
            "should not have run the third command"
        );

        assert!(
            captured_fourth.is_none(),
            "should not have run the fourth command"
        );

        let c = captured_second.expect("subcommand should have run");
        assert_eq!(
            c,
            &a[2..],
            "arguments after the name of the subcommand must be passed to the subcommand"
        );
    }

    let args = vec![
        owned(&["first", "third", "one"]),
        owned(&["first", "third", "one", "two"]),
        owned(&["first", "third", "one", "two", "three"]),
        owned(&["first", "third", "one", "two", "three", "four"]),
    ];

    for a in args {
        let (captured_first, captured_second, captured_third, captured_fourth) = run(&a);

        assert!(
            captured_first.is_none(),
            "should not have run the outer command"
        );

        assert!(
            captured_second.is_none(),
            "should not have run the third command"
        );

        assert!(
            captured_fourth.is_none(),
            "should not have run the fourth command"
        );

        let c = captured_third.expect("subcommand should have run");
        assert_eq!(
            c,
            &a[2..],
            "arguments after the name of the subcommand must be passed to the subcommand"
        );
    }

    let args = vec![
        owned(&["first", "fourth", "one"]),
        owned(&["first", "fourth", "one", "two"]),
        owned(&["first", "fourth", "one", "two", "three"]),
        owned(&["first", "fourth", "one", "two", "three", "four"]),
    ];

    for a in args {
        let (captured_first, captured_second, captured_third, captured_fourth) = run(&a);

        assert!(
            captured_first.is_none(),
            "should not have run the outer command"
        );

        assert!(
            captured_second.is_none(),
            "should not have run the third command"
        );

        assert!(
            captured_third.is_none(),
            "should not have run the third command"
        );

        let c = captured_fourth.expect("subcommand should have run");
        assert_eq!(
            c,
            &a[2..],
            "arguments after the name of the subcommand must be passed to the subcommand"
        );
    }

    let args = vec![
        owned(&["first"]),
        owned(&["first", "one"]),
        owned(&["first", "one", "two"]),
        owned(&["first", "one", "two", "three"]),
        owned(&["first", "one", "two", "three", "four"]),
    ];

    for a in args {
        let (captured_first, captured_second, captured_third, captured_fourth) = run(&a);

        let c = captured_first.expect("first command should have run");
        assert_eq!(
            c,
            a[1..],
            "all arguments should have been passed to first command"
        );

        assert!(
            captured_second.is_none(),
            "should not have run the second command"
        );

        assert!(
            captured_third.is_none(),
            "should not have run the third command"
        );

        assert!(
            captured_fourth.is_none(),
            "should not have run the fourth command"
        );
    }
}

fn two_level_tree() -> Cmd {
    Cmd::root("first")
        .run(1)
        .subcmd(
            Cmd::new("second")
                .run(2)
                .subcmd(Cmd::new("third").run(3))
                .unwrap()
                .subcmd(Cmd::new("fourth").run(4))
                .unwrap(),
        )
        .unwrap()
}

#[test]
fn two_level_subcommand_no_flags() {
    let run = |args: &[String]| {
        let mut dests: Vec<u32> = Vec::new();
        let sel = two_level_tree().execute_with(&args.to_vec(), &mut dests);
        capture(sel, args)
    };

    let args = vec![
        owned(&["first", "second", "third", "one"]),
        owned(&["first", "second", "third", "one", "two"]),
        owned(&["first", "second", "third", "one", "two", "three"]),
        owned(&["first", "second", "third", "one", "two", "three", "four"]),
    ];

    for a in args {
        let (captured_first, captured_second, captured_third, captured_fourth) = run(&a);

        assert!(
            captured_first.is_none(),
            "should not have run the outer command"
        );
        assert!(
            captured_second.is_none(),
            "should not have run the first subcommand"
        );
        assert!(
            captured_fourth.is_none(),
            "should not have run the fourth subcommand"
        );
        let c = captured_third.expect("subcommand should have run");
        assert_eq!(
            c,
            &a[3..],
            "arguments after the name of the subcommand must be passed to the subcommand"
        );
    }

    let args = vec![
        owned(&["first", "second", "fourth", "one"]),
        owned(&["first", "second", "fourth", "one", "two"]),
        owned(&["first", "second", "fourth", "one", "two", "three"]),
        owned(&["first", "second", "fourth", "one", "two", "three", "four"]),
    ];

    for a in args {
        let (captured_first, captured_second, captured_third, captured_fourth) = run(&a);

        assert!(
            captured_first.is_none(),
            "should not have run the outer command"
        );
        assert!(
            captured_second.is_none(),
            "should not have run the first subcommand"
        );
        assert!(
            captured_third.is_none(),
            "should not have run the third subcommand"
        );
        let c = captured_fourth.expect("subcommand should have run");
        assert_eq!(
            c,
            &a[3..],
            "arguments after the name of the subcommand must be passed to the subcommand"
        );
    }

    let args = vec![
        owned(&["first", "second", "one"]),
        owned(&["first", "second", "one", "two"]),
        owned(&["first", "second", "one", "two", "three"]),
        owned(&["first", "second", "one", "two", "three", "four"]),
    ];

    for a in args {
        let (captured_first, captured_second, captured_third, captured_fourth) = run(&a);

        assert!(
            captured_first.is_none(),
            "should not have run the outer command"
        );
        assert!(
            captured_third.is_none(),
            "should not have run the innermost subcommand"
        );
        assert!(
            captured_fourth.is_none(),
            "should not have run the innermost subcommand"
        );
        let c = captured_second.expect("subcommand should have run");
        assert_eq!(
            c,
            &a[2..],
            "arguments after the name of the subcommand must be passed to the subcommand"
        );
    }

    let args = vec![
        owned(&["first"]),
        owned(&["first", "one"]),
        owned(&["first", "one", "two"]),
        owned(&["first", "one", "two", "three"]),
        owned(&["first", "one", "two", "three", "four"]),
    ];

    for a in args {
        let (captured_first, captured_second, captured_third, captured_fourth) = run(&a);

        assert!(
            captured_second.is_none(),
            "should not have run the subcommand"
        );
        assert!(
            captured_third.is_none(),
            "should not have run the innermost subcommand"
        );
        assert!(
            captured_fourth.is_none(),
            "should not have run the fourth subcommand"
        );

        let c = captured_first.expect("first command should have run");
        assert_eq!(
            c,
            a[1..],
            "all arguments should have been passed to first command"
        );
    }
}

#[test]
fn lib_no_subcommands_no_flags() {
    let run = |args: Vec<String>| {
        let mut dests: Vec<u32> = Vec::new();
        let kept = args.clone();
        let (sel, _snap) = App::new_args("first", args).run(1, &mut dests);
        sel.map(|s| kept[s.args_at..].to_vec())
    };

    let args = vec![
        owned(&["first"]),
        owned(&["first", "one"]),
        owned(&["first", "one", "two"]),
        owned(&["first", "one", "two", "three"]),
        owned(&["first", "one", "two", "three", "four"]),
    ];

    for a in args {
        let captured = run(a.clone());

        // If we have a single command and no subcommands or flags, all arguments
        // must be passed to the top-level command.
        let c = captured.expect("command should have run");

        assert_eq!(
            c,
            a[1..],
            "arguments after the name of the command must be passed to run"
        );
    }
}

#[test]
fn lib_one_level_subcommands_no_flags() {
    let run = |args: Vec<String>| {
        let mut dests: Vec<u32> = Vec::new();
        let kept = args.clone();
        let (sel, _snap) = App::new_args("first", args)
            .subcmd(Cmd::new("second").run(2))
            .unwrap()
            .subcmd(Cmd::new("third").run(3))
            .unwrap()
            .subcmd(Cmd::new("fourth").run(4))
            .unwrap()
            .run(1, &mut dests);
        capture(sel, &kept)
    };

    let args = vec![
        owned(&["first", "second", "one"]),
        owned(&["first", "second", "one", "two"]),
        owned(&["first", "second", "one", "two", "three"]),
        owned(&["first", "second", "one", "two", "three", "four"]),
    ];

    for a in args {
        let (captured_first, captured_second, captured_third, captured_fourth) = run(a.clone());

        assert!(
            captured_first.is_none(),
            "should not have run the outer command"
        );

        assert!(
            captured_third.is_none(),
            "should not have run the third command"
        );

        assert!(
            captured_fourth.is_none(),
            "should not have run the fourth command"
        );

        let c = captured_second.expect("subcommand should have run");
        assert_eq!(
            c,
            &a[2..],
            "arguments after the name of the subcommand must be passed to the subcommand"
        );
    }

    let args = vec![
        owned(&["first", "third", "one"]),
        owned(&["first", "third", "one", "two"]),
        owned(&["first", "third", "one", "two", "three"]),
        owned(&["first", "third", "one", "two", "three", "four"]),
    ];

    for a in args {
        let (captured_first, captured_second, captured_third, captured_fourth) = run(a.clone());

        assert!(
            captured_first.is_none(),
            "should not have run the outer command"
        );

        assert!(
            captured_second.is_none(),
            "should not have run the third command"
        );

        assert!(
            captured_fourth.is_none(),
            "should not have run the fourth command"
        );

        let c = captured_third.expect("subcommand should have run");
        assert_eq!(
            c,
            &a[2..],
            "arguments after the name of the subcommand must be passed to the subcommand"
        );
    }

    let args = vec![
        owned(&["first", "fourth", "one"]),
        owned(&["first", "fourth", "one", "two"]),
        owned(&["first", "fourth", "one", "two", "three"]),
        owned(&["first", "fourth", "one", "two", "three", "four"]),
    ];

    for a in args {
        let (captured_first, captured_second, captured_third, captured_fourth) = run(a.clone());

        assert!(
            captured_first.is_none(),
            "should not have run the outer command"
        );

        assert!(
            captured_second.is_none(),
            "should not have run the third command"
        );

        assert!(
            captured_third.is_none(),
            "should not have run the third command"
        );

        let c = captured_fourth.expect("subcommand should have run");
        assert_eq!(
            c,
            &a[2..],
            "arguments after the name of the subcommand must be passed to the subcommand"
        );
    }

    let args = vec![
        owned(&["first"]),
        owned(&["first", "one"]),
        owned(&["first", "one", "two"]),
        owned(&["first", "one", "two", "three"]),
        owned(&["first", "one", "two", "three", "four"]),
    ];

    for a in args {
        let (captured_first, captured_second, captured_third, captured_fourth) = run(a.clone());

        let c = captured_first.expect("first command should have run");
        assert_eq!(
            c,
            a[1..],
            "all arguments should have been passed to first command"
        );

        assert!(
            captured_second.is_none(),
            "should not have run the second command"
        );

        assert!(
            captured_third.is_none(),
            "should not have run the third command"
        );

        assert!(
            captured_fourth.is_none(),
            "should not have run the fourth command"
        );
    }
}

#[test]
fn lib_two_level_subcommand_no_flags() {
    let run = |args: Vec<String>| {
        let mut dests: Vec<u32> = Vec::new();
        let kept = args.clone();
        let (sel, _snap) = App::new_args("first", args)
            .subcmd(
                Cmd::new("second")
                    .subcmd(Cmd::new("third").run(3))
                    .unwrap()
                    .subcmd(Cmd::new("fourth").run(4))
                    .unwrap()
                    .run(2),
            )
            .unwrap()
            .run(1, &mut dests);
        capture(sel, &kept)
    };

    let args = vec![
        owned(&["first", "second", "third", "one"]),
        owned(&["first", "second", "third", "one", "two"]),
        owned(&["first", "second", "third", "one", "two", "three"]),
        owned(&["first", "second", "third", "one", "two", "three", "four"]),
    ];

    for a in args {
        let (captured_first, captured_second, captured_third, captured_fourth) = run(a.clone());

        assert!(
            captured_first.is_none(),
            "should not have run the outer command"
        );
        assert!(
            captured_second.is_none(),
            "should not have run the first subcommand"
        );
        assert!(
            captured_fourth.is_none(),
            "should not have run the fourth subcommand"
        );
        let c = captured_third.expect("subcommand should have run");
        assert_eq!(
            c,
            &a[3..],
            "arguments after the name of the subcommand must be passed to the subcommand"
        );
    }

    let args = vec![
        owned(&["first", "second", "fourth", "one"]),
        owned(&["first", "second", "fourth", "one", "two"]),
        owned(&["first", "second", "fourth", "one", "two", "three"]),
        owned(&["first", "second", "fourth", "one", "two", "three", "four"]),
    ];

    for a in args {
        let (captured_first, captured_second, captured_third, captured_fourth) = run(a.clone());

        assert!(
            captured_first.is_none(),
            "should not have run the outer command"
        );
        assert!(
            captured_second.is_none(),
            "should not have run the first subcommand"
        );
        assert!(
            captured_third.is_none(),
            "should not have run the third subcommand"
        );
        let c = captured_fourth.expect("subcommand should have run");
        assert_eq!(
            c,
            &a[3..],
            "arguments after the name of the subcommand must be passed to the subcommand"
        );
    }

    let args = vec![
        owned(&["first", "second", "one"]),
        owned(&["first", "second", "one", "two"]),
        owned(&["first", "second", "one", "two", "three"]),
        owned(&["first", "second", "one", "two", "three", "four"]),
    ];

    for a in args {
        let (captured_first, captured_second, captured_third, captured_fourth) = run(a.clone());

        assert!(
            captured_first.is_none(),
            "should not have run the outer command"
        );
        assert!(
            captured_third.is_none(),
            "should not have run the innermost subcommand"
        );
        assert!(
            captured_fourth.is_none(),
            "should not have run the innermost subcommand"
        );
        let c = captured_second.expect("subcommand should have run");
        assert_eq!(
            c,
            &a[2..],
            "arguments after the name of the subcommand must be passed to the subcommand"
        );
    }

    let args = vec![
        owned(&["first"]),
        owned(&["first", "one"]),
        owned(&["first", "one", "two"]),
        owned(&["first", "one", "two", "three"]),
        owned(&["first", "one", "two", "three", "four"]),
    ];

    for a in args {
        let (captured_first, captured_second, captured_third, captured_fourth) = run(a.clone());

        assert!(
            captured_second.is_none(),
            "should not have run the subcommand"
        );
        assert!(
            captured_third.is_none(),
            "should not have run the innermost subcommand"
        );
        assert!(
            captured_fourth.is_none(),
            "should not have run the fourth subcommand"
        );

        let c = captured_first.expect("first command should have run");
        assert_eq!(
            c,
            a[1..],
            "all arguments should have been passed to first command"
        );
    }
}
