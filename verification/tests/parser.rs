use talking_bot::instruction::{
    parse_script_file, parse_str_to_instruction, Instruction, ParseError,
};

const EXAMPLE: &str = "main {
    output \"您好，您可以对我描述您的问题\"
    goto menu
}

menu {
    input
    for /余额|balance/ goto balance
    for /再见|bye/ goto bye
    default goto main
}

balance {
    eval balance=Number(balance)+Number(charge)
    output \"余额：${balance}\"
    goto menu
}

bye {
    output \"再见\"
    exit
}
";

#[test]
fn instruction_test_good_instructions() {
    assert_eq!(parse_str_to_instruction("output \"output\""), Ok(Some(Instruction::Output("output".to_string()))));
    assert_eq!(parse_str_to_instruction("goto module1"), Ok(Some(Instruction::Goto("module1".to_string()))));
    assert_eq!(parse_str_to_instruction("input"), Ok(Some(Instruction::Input)));
    assert_eq!(parse_str_to_instruction("for /hello|hi/ goto module2"), Ok(Some(Instruction::For("hello|hi".to_string(), "module2".to_string()))));
    assert_eq!(parse_str_to_instruction("default goto default"), Ok(Some(Instruction::DefaultGoto("default".to_string()))));
    assert_eq!(parse_str_to_instruction("save var"), Ok(Some(Instruction::Save("var".to_string()))));
    assert_eq!(parse_str_to_instruction("eval balance=Number(balance)+Number(charge)"), Ok(Some(Instruction::Eval("balance=Number(balance)+Number(charge)".to_string()))));
    assert_eq!(parse_str_to_instruction("exit"), Ok(Some(Instruction::Exit)));
    assert_eq!(parse_str_to_instruction(""), Ok(None));
}

#[test]
fn instruction_test_bad_instructions() {
    assert_eq!(parse_str_to_instruction("badins"), Err("无法解析指令：badins".to_string()));
    assert_eq!(parse_str_to_instruction("goto"), Err("无法解析指令：goto".to_string()));
    assert_eq!(parse_str_to_instruction("output out"), Err("无法解析指令：output out".to_string()));
}

#[test]
fn instruction_test_parse_script_file() {
    if let Ok(script) = parse_script_file(EXAMPLE) {
        if let Some(main_module) = script.modules.get("main") {
            if let Some(ins) = main_module.instructions.first() {
                assert_eq!(*ins, Instruction::Output("您好，您可以对我描述您的问题".to_string()));
            }
        }
        if let Some(menu_module) = script.modules.get("menu") {
            if let Some(ins) = menu_module.instructions.first() {
                assert_eq!(*ins, Instruction::Input);
            }
        }
    }
}

#[test]
fn example_script_has_four_modules() {
    let script = parse_script_file(EXAMPLE).expect("Failed to parse script file");
    assert_eq!(script.modules.len(), 4);
    let menu = script.modules.get("menu").unwrap();
    assert_eq!(menu.name, "menu");
    assert_eq!(
        menu.instructions,
        vec![
            Instruction::Input,
            Instruction::For("余额|balance".to_string(), "balance".to_string()),
            Instruction::For("再见|bye".to_string(), "bye".to_string()),
            Instruction::DefaultGoto("main".to_string()),
        ]
    );
    let bye = script.modules.get("bye").unwrap();
    assert_eq!(
        bye.instructions,
        vec![Instruction::Output("再见".to_string()), Instruction::Exit]
    );
}

#[test]
fn lines_are_trimmed() {
    assert_eq!(parse_str_to_instruction("   \t "), Ok(None));
    assert_eq!(parse_str_to_instruction("  exit\r"), Ok(Some(Instruction::Exit)));
    assert_eq!(
        parse_str_to_instruction("\u{3000}goto   next\u{a0}"),
        Ok(Some(Instruction::Goto("next".to_string())))
    );
    assert_eq!(
        parse_str_to_instruction("  badins  "),
        Err("无法解析指令：badins".to_string())
    );
}

#[test]
fn gaps_may_be_wide() {
    assert_eq!(
        parse_str_to_instruction("output \t \"hi\""),
        Ok(Some(Instruction::Output("hi".to_string())))
    );
    assert_eq!(
        parse_str_to_instruction("for   /a|b/\tgoto  x"),
        Ok(Some(Instruction::For("a|b".to_string(), "x".to_string())))
    );
    assert_eq!(
        parse_str_to_instruction("default\u{2003}goto\tfallback"),
        Ok(Some(Instruction::DefaultGoto("fallback".to_string())))
    );
    assert_eq!(
        parse_str_to_instruction("eval    x = 1"),
        Ok(Some(Instruction::Eval("x = 1".to_string())))
    );
}

#[test]
fn output_text_runs_from_first_to_last_quote() {
    assert_eq!(
        parse_str_to_instruction("output \"say \"hi\" twice\""),
        Ok(Some(Instruction::Output("say \"hi\" twice".to_string())))
    );
    assert_eq!(
        parse_str_to_instruction("output \"\""),
        Ok(Some(Instruction::Output(String::new())))
    );
    assert_eq!(
        parse_str_to_instruction("output \""),
        Err("无法解析指令：output \"".to_string())
    );
    assert_eq!(
        parse_str_to_instruction("output \"a\" b"),
        Err("无法解析指令：output \"a\" b".to_string())
    );
    assert_eq!(
        parse_str_to_instruction("output\"a\""),
        Err("无法解析指令：output\"a\"".to_string())
    );
}

#[test]
fn pattern_runs_to_the_last_slash_before_goto() {
    assert_eq!(
        parse_str_to_instruction("for /a/b/ goto x"),
        Ok(Some(Instruction::For("a/b".to_string(), "x".to_string())))
    );
    assert_eq!(
        parse_str_to_instruction("for /x/ goto a/ goto b"),
        Ok(Some(Instruction::For("x/ goto a".to_string(), "b".to_string())))
    );
    assert_eq!(
        parse_str_to_instruction("for // goto x"),
        Ok(Some(Instruction::For(String::new(), "x".to_string())))
    );
    assert_eq!(
        parse_str_to_instruction("for / goto x"),
        Err("无法解析指令：for / goto x".to_string())
    );
    assert_eq!(
        parse_str_to_instruction("for /a/goto x"),
        Err("无法解析指令：for /a/goto x".to_string())
    );
    assert_eq!(
        parse_str_to_instruction("for /a/ gotox"),
        Err("无法解析指令：for /a/ gotox".to_string())
    );
    assert_eq!(
        parse_str_to_instruction("for /a/ goto"),
        Err("无法解析指令：for /a/ goto".to_string())
    );
}

#[test]
fn words_are_letters_digits_and_underscores() {
    assert_eq!(
        parse_str_to_instruction("goto Module_2"),
        Ok(Some(Instruction::Goto("Module_2".to_string())))
    );
    assert_eq!(
        parse_str_to_instruction("save 9"),
        Ok(Some(Instruction::Save("9".to_string())))
    );
    assert_eq!(
        parse_str_to_instruction("goto a-b"),
        Err("无法解析指令：goto a-b".to_string())
    );
    assert_eq!(
        parse_str_to_instruction("goto a b"),
        Err("无法解析指令：goto a b".to_string())
    );
    assert_eq!(
        parse_str_to_instruction("save 变量"),
        Err("无法解析指令：save 变量".to_string())
    );
}

#[test]
fn keywords_are_exact() {
    assert_eq!(
        parse_str_to_instruction("inputs"),
        Err("无法解析指令：inputs".to_string())
    );
    assert_eq!(
        parse_str_to_instruction("exit now"),
        Err("无法解析指令：exit now".to_string())
    );
    assert_eq!(
        parse_str_to_instruction("Exit"),
        Err("无法解析指令：Exit".to_string())
    );
    assert_eq!(
        parse_str_to_instruction("eval"),
        Err("无法解析指令：eval".to_string())
    );
    assert_eq!(
        parse_str_to_instruction("default x"),
        Err("无法解析指令：default x".to_string())
    );
}

#[test]
fn a_line_feed_inside_a_line_is_refused() {
    assert_eq!(
        parse_str_to_instruction("output \"a\nb\""),
        Err("无法解析指令：output \"a\nb\"".to_string())
    );
    assert_eq!(
        parse_str_to_instruction("eval a=1\nb"),
        Err("无法解析指令：eval a=1\nb".to_string())
    );
}

#[test]
fn one_module_round_trip() {
    let source = "main {\noutput \"hi\"\ninput\nfor /y|n/ goto main\nsave answer\neval n=Number(n)\ndefault goto main\ngoto main\nexit\n}\n";
    let script = parse_script_file(source).expect("Failed to parse script file");
    assert_eq!(script.modules.len(), 1);
    let main = script.modules.get("main").unwrap();
    assert_eq!(main.name, "main");
    assert_eq!(
        main.instructions,
        vec![
            Instruction::Output("hi".to_string()),
            Instruction::Input,
            Instruction::For("y|n".to_string(), "main".to_string()),
            Instruction::Save("answer".to_string()),
            Instruction::Eval("n=Number(n)".to_string()),
            Instruction::DefaultGoto("main".to_string()),
            Instruction::Goto("main".to_string()),
            Instruction::Exit,
        ]
    );
}

#[test]
fn empty_text_is_an_empty_script() {
    let script = parse_script_file("").expect("Failed to parse script file");
    assert!(script.modules.is_empty());
    let script = parse_script_file("\n  \n\r\n").expect("Failed to parse script file");
    assert!(script.modules.is_empty());
}

#[test]
fn blank_lines_are_skipped_everywhere() {
    let script =
        parse_script_file("\n\nmain {\n\n  exit\n\n}\n\nnext{\n}\n\n").expect("Failed to parse script file");
    assert_eq!(script.modules.len(), 2);
    assert_eq!(script.modules.get("main").unwrap().instructions, vec![Instruction::Exit]);
    assert!(script.modules.get("next").unwrap().instructions.is_empty());
}

#[test]
fn a_later_module_replaces_an_earlier_one() {
    let script = parse_script_file("main {\ninput\n}\nmain {\nexit\n}")
        .expect("Failed to parse script file");
    assert_eq!(script.modules.len(), 1);
    assert_eq!(script.modules.get("main").unwrap().instructions, vec![Instruction::Exit]);
}

#[test]
fn a_header_seals_the_module_before_it() {
    let script = parse_script_file("first {\ninput\nsecond {\nexit\n}")
        .expect("Failed to parse script file");
    assert_eq!(script.modules.len(), 2);
    assert_eq!(script.modules.get("first").unwrap().instructions, vec![Instruction::Input]);
    assert_eq!(script.modules.get("second").unwrap().instructions, vec![Instruction::Exit]);
}

#[test]
fn what_follows_the_opening_brace_is_not_read() {
    let script = parse_script_file("main { exit }\n}").expect("Failed to parse script file");
    assert!(script.modules.get("main").unwrap().instructions.is_empty());
}

#[test]
fn a_bad_line_fails_the_whole_script() {
    match parse_script_file("main {\n  exit\n  badins\n}") {
        Err(ParseError::Instruction(message)) => {
            assert_eq!(message, "无法解析指令：badins");
        }
        _ => panic!("expected the line to be refused"),
    }
    let error = parse_script_file("main {\n  jump x\n}").err().unwrap();
    assert_eq!(error.message(), "解析错误：无法解析指令：jump x");
}

#[test]
fn a_closing_brace_needs_an_open_module() {
    match parse_script_file("}\n") {
        Err(ParseError::UnmatchedClose) => {}
        _ => panic!("expected an unmatched brace"),
    }
    let error = parse_script_file("main {\n}\n}\n").err().unwrap();
    assert!(matches!(error, ParseError::UnmatchedClose));
    assert_eq!(error.message(), "未找到匹配的模块开始");
}

#[test]
fn an_instruction_needs_an_open_module() {
    let error = parse_script_file("exit\nmain {\n}\n").err().unwrap();
    assert!(matches!(error, ParseError::OutsideModule));
    assert_eq!(error.message(), "未找到模块定义");
    let error = parse_script_file("main {\n}\nnot an instruction\n").err().unwrap();
    assert!(matches!(error, ParseError::OutsideModule));
}

#[test]
fn the_end_of_the_text_needs_a_closed_module() {
    match parse_script_file("main {\n  exit\n") {
        Err(ParseError::Unterminated(name)) => assert_eq!(name, "main"),
        _ => panic!("expected an open module"),
    }
    let error = parse_script_file("a {\n}\nb {").err().unwrap();
    assert_eq!(error.message(), "模块 `b` 未正确结束");
}

#[test]
#[should_panic]
fn test_module_end_error() {
    let source = "main {\n    output \"hello\"\n    goto next\n\nnext {\n    exit\n";
    match parse_script_file(source.trim()) {
        Ok(script) => script,
        Err(err) => {
            panic!("脚本解析错误: {}", err.message());
        }
    };
}
