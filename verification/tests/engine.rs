use talking_bot::execute::{
    branch_on, execute_instruction, execute_module, execute_script, jump_to, parse_assignment,
    replace_variables, Context, Effect, Ending, ExecError, FailurePolicy, Variables,
};
use talking_bot::instruction::{parse_script_file, Instruction, Script};
use talking_bot::number::{decimal_text, parse_number};
use talking_bot::pattern::search;

fn parsed(source: &str) -> Script {
    parse_script_file(source).expect("Failed to parse script file")
}

fn variables(pairs: &[(&str, &str)]) -> Variables {
    let mut variables = Variables::new();
    for (name, value) in pairs {
        variables.set(name.to_string(), value.to_string());
    }
    variables
}

fn lines(texts: &[&str]) -> Vec<String> {
    texts.iter().map(|text| text.to_string()).collect()
}

const BANK: &str = "main {
    output \"balance or bye?\"
    input
    for /^bal/ goto balance
    for /^bye$/ goto bye
    default goto unknown
}
balance {
    eval total=Number(total)+Number(last_input)
    output \"how much?\"
    input
    save charge
    eval total=Number(total)+Number(charge)
    output \"total: ${total} after ${charge}\"
    goto main
}
unknown {
    output \"I did not understand ${last_input}\"
    goto main
}
bye {
    output \"bye\"
    exit
}
";

#[test]
fn execute_test_module_not_exist_error() {
    let script = parsed("main {\n    output \"hello\"\n    goto foo\n}\n");
    let result = execute_script(&script, &Vec::new(), 100, FailurePolicy::Abort);
    assert!(result.is_err(), "Expected an error, but the script executed successfully");
    if let Err(err) = result {
        let error_msg = err.message();
        println!("Captured error: {}", error_msg);
        assert!(
            error_msg.contains("无法跳转到不存在的模块: foo"),
            "Expected error message to contain '无法跳转到不存在的模块: foo', but got: {}",
            error_msg
        );
    }
}

#[test]
fn execute_test_no_main() {
    let script = parsed("start {\n    output \"hello\"\n    exit\n}\n");
    let result = execute_script(&script, &Vec::new(), 100, FailurePolicy::Abort);
    assert!(result.is_err(), "Expected an error, but the script executed successfully");
    if let Err(err) = result {
        let error_msg = err.message();
        println!("Captured error: {}", error_msg);
        assert!(
            error_msg.contains("模块 'main' 不存在"),
            "Expected error message to contain '模块 'main' 不存在', but got: {}",
            error_msg
        );
    }
}

#[test]
fn a_variable_is_interpolated() {
    let store = variables(&[("a", "3")]);
    assert_eq!(replace_variables("x=${a}", &store), "x=3");
    assert_eq!(replace_variables("${a}${a} and ${a}", &store), "33 and 3");
}

#[test]
fn a_missing_variable_leaves_a_marker() {
    let store = Variables::new();
    let text = replace_variables("${b}", &store);
    assert!(text.contains("b"));
    assert_eq!(text, "{b}还没有初始化");
    assert_eq!(replace_variables("<${who}>", &store), "<{who}还没有初始化>");
}

#[test]
fn text_without_placeholders_is_unchanged() {
    let store = variables(&[("a", "3")]);
    for text in ["", "plain", "您好", "a b\tc", "{a}", "$a", "100%"] {
        assert_eq!(replace_variables(text, &store), text);
    }
}

#[test]
fn malformed_placeholders_are_unchanged() {
    let store = variables(&[("a", "3"), ("1a", "no")]);
    for text in ["$", "${", "${}", "${a", "$ {a}", "${1a}", "${a b}", "${a-b}", "$${", "${变量}"] {
        assert_eq!(replace_variables(text, &store), text);
    }
    assert_eq!(replace_variables("$${a}", &store), "$3");
    assert_eq!(replace_variables("${${a}}", &store), "${3}");
    assert_eq!(replace_variables("${a}}", &store), "3}");
}

#[test]
fn a_value_is_not_expanded_again() {
    let store = variables(&[("a", "${b}"), ("b", "deep"), ("_x9", "ok")]);
    assert_eq!(replace_variables("${a}", &store), "${b}");
    assert_eq!(replace_variables("${_x9}", &store), "ok");
}

#[test]
fn numbers_are_summed() {
    let store = variables(&[("a", "2"), ("b", "5")]);
    assert_eq!(
        parse_assignment("total=Number(a)+Number(b)", &store).unwrap(),
        ("total".to_string(), "7".to_string())
    );
}

#[test]
fn a_plain_value_is_assigned_as_written() {
    let store = Variables::new();
    assert_eq!(parse_assignment("x=5", &store).unwrap(), ("x".to_string(), "5".to_string()));
    assert_eq!(
        parse_assignment("  greeting =  hello world  ", &store).unwrap(),
        ("greeting".to_string(), "hello world".to_string())
    );
    assert_eq!(parse_assignment("x=", &store).unwrap(), ("x".to_string(), String::new()));
    assert_eq!(parse_assignment("=", &store).unwrap(), (String::new(), String::new()));
    assert_eq!(
        parse_assignment("x=a+b", &store).unwrap(),
        ("x".to_string(), "a+b".to_string())
    );
}

#[test]
fn an_expression_needs_exactly_one_equals_sign() {
    let store = Variables::new();
    assert!(matches!(parse_assignment("bad", &store), Err(ExecError::Expression)));
    assert!(matches!(parse_assignment("", &store), Err(ExecError::Expression)));
    assert!(matches!(parse_assignment("a=b=c", &store), Err(ExecError::Expression)));
    assert!(matches!(parse_assignment("a==1", &store), Err(ExecError::Expression)));
    assert_eq!(parse_assignment("bad", &store).err().unwrap().message(), "无效的赋值表达式");
}

#[test]
fn what_stands_between_the_terms_is_not_read() {
    let store = variables(&[("a", "2"), ("b", "5")]);
    assert_eq!(
        parse_assignment("t = 100 * Number(a) - junk Number(b) !", &store).unwrap(),
        ("t".to_string(), "7".to_string())
    );
    assert_eq!(parse_assignment("t=Number(", &store).unwrap().1, "0");
    assert_eq!(parse_assignment("t=Number()", &store).unwrap().1, "0");
    assert_eq!(parse_assignment("t=Number(a", &store).unwrap().1, "0");
    assert_eq!(parse_assignment("t=Number(a )+Number(b)", &store).unwrap().1, "5");
    assert_eq!(parse_assignment("t=Number(Number(a))", &store).unwrap().1, "2");
    assert_eq!(parse_assignment("t=number(a)", &store).unwrap().1, "number(a)");
}

#[test]
fn values_that_are_no_numbers_count_as_zero() {
    let store = variables(&[
        ("a", "12"),
        ("neg", "-20"),
        ("plus", "+3"),
        ("word", "abc"),
        ("spaced", " 4"),
        ("empty", ""),
        ("big", "2147483647"),
        ("small", "-2147483648"),
        ("over", "2147483648"),
        ("under", "-2147483649"),
        ("zeros", "0000000000000000000007"),
        ("sign", "-"),
        ("real", "1.5"),
    ]);
    let value = |expression: &str| parse_assignment(expression, &store).unwrap().1;
    assert_eq!(value("t=Number(a)+Number(neg)"), "-8");
    assert_eq!(value("t=Number(plus)"), "3");
    assert_eq!(value("t=Number(word)+Number(spaced)+Number(empty)+Number(missing)"), "0");
    assert_eq!(value("t=Number(sign)+Number(real)"), "0");
    assert_eq!(value("t=Number(big)"), "2147483647");
    assert_eq!(value("t=Number(small)"), "-2147483648");
    assert_eq!(value("t=Number(over)+Number(under)"), "0");
    assert_eq!(value("t=Number(zeros)"), "7");
    assert_eq!(value("t=Number(big)+Number(big)"), "4294967294");
    assert_eq!(value("t=Number(small)+Number(small)+Number(small)"), "-6442450944");
}

#[test]
fn numbers_are_read_and_written_in_decimal() {
    assert_eq!(parse_number("0"), 0);
    assert_eq!(parse_number("-0"), 0);
    assert_eq!(parse_number("42"), 42);
    assert_eq!(parse_number("-42"), -42);
    assert_eq!(parse_number("+42"), 42);
    assert_eq!(parse_number("2147483647"), i32::MAX);
    assert_eq!(parse_number("-2147483648"), i32::MIN);
    assert_eq!(parse_number("2147483648"), 0);
    assert_eq!(parse_number("99999999999999999999999999"), 0);
    assert_eq!(parse_number("4 2"), 0);
    assert_eq!(parse_number("+-1"), 0);
    assert_eq!(parse_number("١٢"), 0);
    assert_eq!(decimal_text(0), "0");
    assert_eq!(decimal_text(7), "7");
    assert_eq!(decimal_text(10), "10");
    assert_eq!(decimal_text(-1), "-1");
    assert_eq!(decimal_text(1234567890), "1234567890");
    assert_eq!(decimal_text(i128::MAX), i128::MAX.to_string());
    assert_eq!(decimal_text(i128::MIN), i128::MIN.to_string());
}

#[test]
fn patterns_are_regular_expressions() {
    assert_eq!(search("^a+$", "aaa"), Some(true));
    assert_eq!(search("^a+$", "aab"), Some(false));
    assert_eq!(search("hello|hi", "oh hi there"), Some(true));
    assert_eq!(search("hello|hi", "bye"), Some(false));
    assert_eq!(search("", "anything"), Some(true));
    assert_eq!(search("a", "a"), Some(true));
    assert_eq!(search("a", "b"), Some(false));
    assert_eq!(search("(", "("), None);
    assert_eq!(search("[a-", "a"), None);
}

#[test]
fn a_run_prints_and_exits() {
    let script = parsed("main {\n  output \"hi\"\n  goto next\n}\nnext {\n  exit\n}\n");
    let transcript = execute_script(&script, &Vec::new(), 100, FailurePolicy::Abort).unwrap();
    assert_eq!(transcript.output, vec!["hi".to_string()]);
    assert!(matches!(transcript.ending, Ending::Exited));
}

#[test]
fn exit_ends_the_run_at_once() {
    let script = parsed("main {\n  output \"a\"\n  exit\n  output \"b\"\n  goto main\n}\n");
    let transcript = execute_script(&script, &Vec::new(), 100, FailurePolicy::Report).unwrap();
    assert_eq!(transcript.output, vec!["a".to_string()]);
    assert!(matches!(transcript.ending, Ending::Exited));
}

#[test]
fn a_missing_entry_module_is_a_state_error() {
    let script = parsed("start {\n  exit\n}\n");
    match execute_script(&script, &Vec::new(), 100, FailurePolicy::Abort) {
        Err(ExecError::State(name)) => assert_eq!(name, "main"),
        _ => panic!("expected a state error"),
    }
    let empty = script_without_modules();
    assert!(matches!(
        execute_script(&empty, &Vec::new(), 1, FailurePolicy::Abort),
        Err(ExecError::State(_))
    ));
}

fn script_without_modules() -> Script {
    parsed("")
}

#[test]
fn a_jump_to_a_missing_module_is_a_transition_error() {
    for source in [
        "main {\n  goto foo\n}\n",
        "main {\n  default goto foo\n}\n",
        "main {\n  input\n  for /./ goto foo\n}\n",
    ] {
        let script = parsed(source);
        match execute_script(&script, &lines(&["x"]), 100, FailurePolicy::Abort) {
            Err(ExecError::Transition(name)) => assert_eq!(name, "foo"),
            _ => panic!("expected a transition error"),
        }
    }
}

#[test]
fn a_failed_run_is_given_up_or_reported() {
    let script = parsed("main {\n  output \"one\"\n  output \"two\"\n  goto foo\n}\n");
    let given_up = execute_script(&script, &Vec::new(), 100, FailurePolicy::Abort);
    match given_up {
        Err(error) => assert_eq!(error.message(), "无法跳转到不存在的模块: foo"),
        Ok(_) => panic!("expected the run to be given up"),
    }
    let reported = execute_script(&script, &Vec::new(), 100, FailurePolicy::Report).unwrap();
    assert_eq!(
        reported.output,
        vec![
            "one".to_string(),
            "two".to_string(),
            "模块执行错误: 无法跳转到不存在的模块: foo".to_string(),
        ]
    );
    match reported.ending {
        Ending::Failed(ExecError::Transition(name)) => assert_eq!(name, "foo"),
        _ => panic!("expected the failure in the transcript"),
    }
}

#[test]
fn save_needs_an_input() {
    let script = parsed("main {\n  save x\n  exit\n}\n");
    match execute_script(&script, &Vec::new(), 100, FailurePolicy::Abort) {
        Err(error) => {
            assert!(matches!(error, ExecError::Variable));
            assert_eq!(error.message(), "没有可保存的输入");
        }
        Ok(_) => panic!("expected a variable error"),
    }
    let script = parsed("main {\n  input\n  save x\n  output \"got ${x}\"\n  exit\n}\n");
    let transcript =
        execute_script(&script, &lines(&["  hello  "]), 100, FailurePolicy::Abort).unwrap();
    assert_eq!(transcript.output, vec!["got hello".to_string()]);
    let empty_line = execute_script(&script, &lines(&["   "]), 100, FailurePolicy::Report).unwrap();
    assert!(matches!(empty_line.ending, Ending::Failed(ExecError::Variable)));
    let no_line = execute_script(&script, &Vec::new(), 100, FailurePolicy::Report).unwrap();
    assert!(matches!(no_line.ending, Ending::Failed(ExecError::Variable)));
}

#[test]
fn a_bad_expression_fails_the_run() {
    let script = parsed("main {\n  eval nothing\n  exit\n}\n");
    let transcript = execute_script(&script, &Vec::new(), 100, FailurePolicy::Report).unwrap();
    assert!(matches!(transcript.ending, Ending::Failed(ExecError::Expression)));
    assert_eq!(transcript.output, vec!["模块执行错误: 无效的赋值表达式".to_string()]);
}

#[test]
fn a_bad_pattern_fails_the_run() {
    let script = parsed("main {\n  for /(/ goto main\n  input\n  for /(/ goto main\n  exit\n}\n");
    match execute_script(&script, &lines(&["x"]), 100, FailurePolicy::Abort) {
        Err(ExecError::Pattern(pattern)) => assert_eq!(pattern, "("),
        _ => panic!("expected a pattern error"),
    }
    let error = ExecError::Pattern("(".to_string());
    assert_eq!(error.message(), "正则表达式错误: (");

    let script = parsed("main {\n  output \"ask\"\n  input\n  for /[a-/ goto main\n  exit\n}\n");
    let reported = execute_script(&script, &lines(&["x"]), 100, FailurePolicy::Report).unwrap();
    assert_eq!(reported.output, lines(&["ask", "模块执行错误: 正则表达式错误: [a-"]));
    match reported.ending {
        Ending::Failed(ExecError::Pattern(pattern)) => assert_eq!(pattern, "[a-"),
        _ => panic!("expected the failure in the transcript"),
    }

    let mut context = Context::new("main", &script);
    assert!(matches!(execute_module(&mut context), Ok(Effect::Print(_))));
    assert!(matches!(execute_module(&mut context), Ok(Effect::Read)));
    context.accept_input("x");
    assert!(matches!(execute_module(&mut context), Err(ExecError::Pattern(_))));
    assert_eq!(context.position, 2);
    assert_eq!(context.current_module, "main");
}

#[test]
fn a_for_without_input_stays() {
    let script = parsed("main {\n  for /./ goto nowhere\n  output \"stayed\"\n  exit\n}\n");
    let transcript = execute_script(&script, &Vec::new(), 100, FailurePolicy::Abort).unwrap();
    assert_eq!(transcript.output, vec!["stayed".to_string()]);
    assert!(matches!(transcript.ending, Ending::Exited));
}

#[test]
fn a_dialogue_runs_on_recorded_input() {
    let script = parsed(BANK);
    let input = lines(&["balance", "25", "what?", "", "bal", "-5", "bye"]);
    let transcript = execute_script(&script, &input, 1000, FailurePolicy::Abort).unwrap();
    assert_eq!(
        transcript.output,
        lines(&[
            "balance or bye?",
            "how much?",
            "total: 25 after 25",
            "balance or bye?",
            "I did not understand what?",
            "balance or bye?",
            "I did not understand what?",
            "balance or bye?",
            "how much?",
            "total: 20 after -5",
            "balance or bye?",
            "bye",
        ])
    );
    assert!(matches!(transcript.ending, Ending::Exited));
}

#[test]
fn a_module_without_a_way_out_is_visited_again() {
    let script = parsed("main {\n  eval n=Number(n)+Number(one)\n  eval one=1\n  output \"${n}\"\n}\n");
    let transcript = execute_script(&script, &Vec::new(), 7, FailurePolicy::Abort).unwrap();
    assert!(matches!(transcript.ending, Ending::Unfinished));
    assert_eq!(transcript.output, lines(&["0", "1", "2", "3"]));
    let nothing = execute_script(&script, &Vec::new(), 0, FailurePolicy::Abort).unwrap();
    assert!(matches!(nothing.ending, Ending::Unfinished));
    assert!(nothing.output.is_empty());
}

#[test]
fn a_read_without_a_line_changes_nothing() {
    let script = parsed("main {\n  input\n  for /x/ goto done\n  output \"again\"\n}\ndone {\n  exit\n}\n");
    let transcript = execute_script(&script, &Vec::new(), 6, FailurePolicy::Abort).unwrap();
    assert!(matches!(transcript.ending, Ending::Unfinished));
    assert_eq!(transcript.output, lines(&["again", "again"]));
    let transcript = execute_script(&script, &lines(&["", "x"]), 100, FailurePolicy::Abort).unwrap();
    assert!(matches!(transcript.ending, Ending::Exited));
    assert_eq!(transcript.output, lines(&["again"]));
}

#[test]
fn an_instruction_changes_only_the_variables() {
    let script = parsed("main {\n  exit\n}\nnext {\n  exit\n}\n");
    let mut context = Context::new("main", &script);
    assert_eq!(context.current_module, "main");
    assert_eq!(context.position, 0);
    assert!(context.variables.get("last_input").is_none());

    let effect = execute_instruction(&Instruction::Input, &mut context).unwrap();
    assert!(matches!(effect, Effect::Read));
    context.accept_input(" yes \n");
    assert_eq!(context.variables.get("last_input").unwrap(), "yes");
    context.accept_input("   ");
    assert_eq!(context.variables.get("last_input").unwrap(), "yes");

    let effect = execute_instruction(&Instruction::Save("answer".to_string()), &mut context);
    assert!(matches!(effect, Ok(Effect::Stay)));
    assert_eq!(context.variables.get("answer").unwrap(), "yes");

    let effect =
        execute_instruction(&Instruction::Output("you said ${answer}".to_string()), &mut context);
    match effect {
        Ok(Effect::Print(text)) => assert_eq!(text, "you said yes"),
        _ => panic!("expected text to print"),
    }

    let effect = execute_instruction(
        &Instruction::For("^y".to_string(), "next".to_string()),
        &mut context,
    );
    match effect {
        Ok(Effect::Jump(target)) => assert_eq!(target, "next"),
        _ => panic!("expected a jump"),
    }
    let effect = execute_instruction(
        &Instruction::For("^n".to_string(), "next".to_string()),
        &mut context,
    );
    assert!(matches!(effect, Ok(Effect::Stay)));

    let effect = execute_instruction(&Instruction::Eval("n = Number(n)".to_string()), &mut context);
    assert!(matches!(effect, Ok(Effect::Stay)));
    assert_eq!(context.variables.get("n").unwrap(), "0");

    let effect = execute_instruction(&Instruction::Exit, &mut context);
    assert!(matches!(effect, Ok(Effect::Exit)));
    assert_eq!(context.current_module, "main");
    assert_eq!(context.position, 0);
}

#[test]
fn a_visit_stops_at_the_first_effect() {
    let script = parsed(
        "main {\n  eval n=1\n  output \"n is ${n}\"\n  input\n  save said\n  goto next\n  output \"never\"\n}\nnext {\n  exit\n}\n",
    );
    let mut context = Context::new("main", &script);
    match execute_module(&mut context) {
        Ok(Effect::Print(text)) => assert_eq!(text, "n is 1"),
        _ => panic!("expected text to print"),
    }
    assert_eq!(context.position, 2);
    assert!(matches!(execute_module(&mut context), Ok(Effect::Read)));
    assert_eq!(context.position, 3);
    context.accept_input("word");
    match execute_module(&mut context) {
        Ok(Effect::Jump(target)) => assert_eq!(target, "next"),
        _ => panic!("expected a jump"),
    }
    assert_eq!(context.current_module, "next");
    assert_eq!(context.position, 0);
    assert_eq!(context.variables.get("said").unwrap(), "word");
    assert!(matches!(execute_module(&mut context), Ok(Effect::Exit)));
    assert!(matches!(execute_module(&mut context), Ok(Effect::Exit)));
    assert_eq!(context.current_module, "next");
}

#[test]
fn a_visit_wraps_at_the_end_of_the_module() {
    let script = parsed("main {\n  eval n=1\n}\n");
    let mut context = Context::new("main", &script);
    assert!(matches!(execute_module(&mut context), Ok(Effect::Stay)));
    assert_eq!(context.position, 0);
    assert_eq!(context.current_module, "main");
    context.position = 17;
    assert!(matches!(execute_module(&mut context), Ok(Effect::Stay)));
    assert_eq!(context.position, 0);
}

#[test]
fn a_failed_visit_stops_at_the_instruction_that_failed() {
    let script = parsed("main {\n  eval n=1\n  save x\n}\n");
    let mut context = Context::new("main", &script);
    assert!(matches!(execute_module(&mut context), Err(ExecError::Variable)));
    assert_eq!(context.position, 1);
    assert_eq!(context.variables.get("n").unwrap(), "1");
    assert!(context.variables.get("x").is_none());
    assert!(matches!(execute_module(&mut context), Err(ExecError::Variable)));
    assert_eq!(context.position, 1);
    let mut lost = Context::new("nowhere", &script);
    match execute_module(&mut lost) {
        Err(ExecError::State(name)) => assert_eq!(name, "nowhere"),
        _ => panic!("expected a state error"),
    }
    assert_eq!(lost.current_module, "nowhere");
}

#[test]
fn a_branch_follows_the_verdict() {
    let script = parsed("main {\n  exit\n}\n");
    let pattern = "p".to_string();
    let here = "main".to_string();
    let gone = "gone".to_string();
    assert!(matches!(branch_on(&script, Some(false), &pattern, &here), Ok(Effect::Stay)));
    assert!(matches!(branch_on(&script, Some(false), &pattern, &gone), Ok(Effect::Stay)));
    match branch_on(&script, Some(true), &pattern, &here) {
        Ok(Effect::Jump(target)) => assert_eq!(target, "main"),
        _ => panic!("expected a jump"),
    }
    match branch_on(&script, Some(true), &pattern, &gone) {
        Err(ExecError::Transition(target)) => assert_eq!(target, "gone"),
        _ => panic!("expected a transition error"),
    }
    match branch_on(&script, None, &pattern, &here) {
        Err(ExecError::Pattern(text)) => assert_eq!(text, "p"),
        _ => panic!("expected a pattern error"),
    }
    match jump_to(&script, &gone) {
        Err(error) => assert_eq!(error.message(), "无法跳转到不存在的模块: gone"),
        Ok(_) => panic!("expected a transition error"),
    }
}
