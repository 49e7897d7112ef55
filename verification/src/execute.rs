//! The engine: the variable store, the expansion of placeholders, the
//! evaluation of assignments, and the state machine that walks the modules of
//! a script.

use crate::instruction::{Instruction, InstructionView, ModuleView, Script};
use crate::number::{decimal, decimal_text, number_value, parse_number};
use crate::pattern::{pattern_matches, search};
use crate::text::{
    chars_of, digit_char, find, find_char, has_at, is_digit, occurs_at, run_end, scan, slice_of,
    string_of, trim, trimmed, CharClass,
};
use vstd::hash_map::StringHashMap;
use vstd::prelude::*;

verus! {

/// The variables of a run: text values under text names.
pub struct Variables {
    /// The values, each under the name of its variable.
    pub entries: StringHashMap<String>,
}

impl View for Variables {
    type V = Map<Seq<char>, Seq<char>>;

    open spec fn view(&self) -> Map<Seq<char>, Seq<char>> {
        Map::new(
            |name: Seq<char>| self.entries@.contains_key(name),
            |name: Seq<char>| self.entries@[name]@,
        )
    }
}

impl Variables {
    /// A store that holds no variable.
    pub fn new() -> (variables: Variables)
        ensures
            variables@ == Map::<Seq<char>, Seq<char>>::empty(),
    {
        let variables = Variables { entries: StringHashMap::new() };
        assert(variables@ =~= Map::<Seq<char>, Seq<char>>::empty());
        variables
    }

    /// The value of the named variable, if it has one.
    pub fn get(&self, name: &str) -> (value: Option<&String>)
        ensures
            match value {
                Some(text) => self@.contains_key(name@) && text@ == self@[name@],
                None => !self@.contains_key(name@),
            },
    {
        self.entries.get(name)
    }

    /// Gives the named variable a value, in place of the one it had.
    pub fn set(&mut self, name: String, value: String)
        ensures
            final(self)@ == old(self)@.insert(name@, value@),
    {
        self.entries.insert(name, value);
        assert(self@ =~= old(self)@.insert(name@, value@));
    }
}

/// The name of the variable that holds the last line of input.
pub open spec fn last_input() -> Seq<char> {
    "last_input"@
}

/// What stands in place of a placeholder whose variable has no value: a
/// marker that shows the name.
pub open spec fn marker(name: Seq<char>) -> Seq<char> {
    "{"@ + name + "}还没有初始化"@
}

/// What stands in place of the placeholder of `name`.
pub open spec fn expansion(variables: Map<Seq<char>, Seq<char>>, name: Seq<char>) -> Seq<char> {
    if variables.contains_key(name) {
        variables[name]
    } else {
        marker(name)
    }
}

/// Where the placeholder that begins at `at` ends: the index of its closing
/// brace. A placeholder is `${`, a name and `}`; the name is made of word
/// characters and does not begin with a digit.
pub open spec fn placeholder_end(s: Seq<char>, at: int) -> Option<int> {
    let name = at + 2;
    let end = run_end(s, name, CharClass::Word);
    if occurs_at(s, at, "${"@) && name < end && !is_digit(s[name]) && end < s.len() && s[end]
        == '}' {
        Some(end)
    } else {
        None
    }
}

/// The text from index `from` on with every placeholder replaced, read from
/// left to right.
pub open spec fn interpolate_from(
    s: Seq<char>,
    variables: Map<Seq<char>, Seq<char>>,
    from: int,
) -> Seq<char>
    decreases s.len() - from,
{
    if from < 0 || from >= s.len() {
        Seq::empty()
    } else {
        match placeholder_end(s, from) {
            Some(end) => if from < end {
                expansion(variables, s.subrange(from + 2, end)) + interpolate_from(
                    s,
                    variables,
                    end + 1,
                )
            } else {
                Seq::empty()
            },
            None => seq![s[from]] + interpolate_from(s, variables, from + 1),
        }
    }
}

/// The text with every placeholder `${name}` replaced by the value of the
/// variable, or by a marker where it has none. Everything else stays as it is.
pub open spec fn interpolate(text: Seq<char>, variables: Map<Seq<char>, Seq<char>>) -> Seq<char> {
    interpolate_from(text, variables, 0)
}

/// A text in which no placeholder begins is left as it is.
pub proof fn lemma_interpolate_plain(text: Seq<char>, variables: Map<Seq<char>, Seq<char>>)
    requires
        forall|at: int| 0 <= at < text.len() ==> placeholder_end(text, at) is None,
    ensures
        interpolate(text, variables) == text,
{
    lemma_interpolate_plain_from(text, variables, 0);
    assert(text.skip(0) =~= text);
}

/// From an index behind which no placeholder begins, the text is left as it is.
proof fn lemma_interpolate_plain_from(
    text: Seq<char>,
    variables: Map<Seq<char>, Seq<char>>,
    from: int,
)
    requires
        0 <= from <= text.len(),
        forall|at: int| from <= at < text.len() ==> placeholder_end(text, at) is None,
    ensures
        interpolate_from(text, variables, from) == text.skip(from),
    decreases text.len() - from,
{
    if from < text.len() {
        lemma_interpolate_plain_from(text, variables, from + 1);
        assert(placeholder_end(text, from) is None);
        assert(text.skip(from) =~= seq![text[from]] + text.skip(from + 1));
    } else {
        assert(text.skip(from) =~= Seq::<char>::empty());
    }
}

/// Replaces every placeholder `${name}` in `text` by the value of the
/// variable, or by a marker that shows the name where the variable has no
/// value. A `$` or `${` that begins no placeholder stays as it is.
pub fn replace_variables(text: &str, variables: &Variables) -> (result: String)
    ensures
        result@ == interpolate(text@, variables@),
{
    let v = chars_of(text);
    let mut result = String::new();
    let mut at: usize = 0;
    while at < v.len()
        invariant
            v@ == text@,
            at <= v.len(),
            interpolate(text@, variables@) == result@ + interpolate_from(
                v@,
                variables@,
                at as int,
            ),
        decreases v.len() - at,
    {
        let ghost before = result@;
        let mut end: usize = at;
        let mut found = false;
        if has_at(&v, at, "${") {
            proof {
                reveal_strlit("${");
            }
            end = scan(&v, at + 2, CharClass::Word);
            found = at + 2 < end && !digit_char(v[at + 2]) && end < v.len() && v[end] == '}';
        }
        if found {
            let name = string_of(&v, at + 2, end);
            match variables.get(name.as_str()) {
                Some(value) => {
                    result.append(value.as_str());
                },
                None => {
                    result.append("{");
                    result.append(name.as_str());
                    result.append("}还没有初始化");
                },
            }
            assert(result@ =~= before + expansion(variables@, name@));
            assert(placeholder_end(v@, at as int) == Some(end as int));
            at = end + 1;
        } else {
            result.push(v[at]);
            assert(placeholder_end(v@, at as int) is None) by {
                reveal_strlit("${");
            }
            at = at + 1;
        }
        assert(interpolate(text@, variables@) =~= result@ + interpolate_from(
            v@,
            variables@,
            at as int,
        ));
    }
    assert(result@ + Seq::<char>::empty() =~= result@);
    result
}

/// Why a run cannot go on.
#[derive(Debug)]
pub enum ExecError {
    /// An instruction names a target module that the script lacks.
    Transition(String),
    /// The script lacks the module that the engine is to visit.
    State(String),
    /// A variable is to be saved and no input has been read yet.
    Variable,
    /// An expression is not one assignment: it holds no `=`, or more than one.
    Expression,
    /// The pattern of a `for` was refused as a regular expression.
    Pattern(String),
}

/// An execution error as a mathematical value.
pub enum ExecErrorView {
    Transition(Seq<char>),
    State(Seq<char>),
    Variable,
    Expression,
    Pattern(Seq<char>),
}

impl View for ExecError {
    type V = ExecErrorView;

    open spec fn view(&self) -> ExecErrorView {
        match self {
            ExecError::Transition(target) => ExecErrorView::Transition(target@),
            ExecError::State(module) => ExecErrorView::State(module@),
            ExecError::Variable => ExecErrorView::Variable,
            ExecError::Expression => ExecErrorView::Expression,
            ExecError::Pattern(pattern) => ExecErrorView::Pattern(pattern@),
        }
    }
}

impl ExecErrorView {
    /// The error in words. Each message names the module or the pattern that
    /// the error is about.
    pub open spec fn message(self) -> Seq<char> {
        match self {
            ExecErrorView::Transition(target) => "无法跳转到不存在的模块: "@ + target,
            ExecErrorView::State(module) => "模块 '"@ + module + "' 不存在"@,
            ExecErrorView::Variable => "没有可保存的输入"@,
            ExecErrorView::Expression => "无效的赋值表达式"@,
            ExecErrorView::Pattern(pattern) => "正则表达式错误: "@ + pattern,
        }
    }
}

impl ExecError {
    /// The error in words, for the operator.
    pub fn message(&self) -> (text: String)
        ensures
            text@ == self@.message(),
    {
        match self {
            ExecError::Transition(target) => {
                let mut text = String::from_str("无法跳转到不存在的模块: ");
                text.append(target.as_str());
                text
            },
            ExecError::State(module) => {
                let mut text = String::from_str("模块 '");
                text.append(module.as_str());
                text.append("' 不存在");
                text
            },
            ExecError::Variable => String::from_str("没有可保存的输入"),
            ExecError::Expression => String::from_str("无效的赋值表达式"),
            ExecError::Pattern(pattern) => {
                let mut text = String::from_str("正则表达式错误: ");
                text.append(pattern.as_str());
                text
            },
        }
    }
}

/// Where the term `Number(<name>)` that begins at `at` ends: the index of its
/// closing bracket. The name is one or more word characters.
pub open spec fn number_term_end(s: Seq<char>, at: int) -> Option<int> {
    let name = at + "Number("@.len();
    let end = run_end(s, name, CharClass::Word);
    if occurs_at(s, at, "Number("@) && name < end && end < s.len() && s[end] == ')' {
        Some(end)
    } else {
        None
    }
}

/// What the named variable is worth as a number: 0 where it has no value or
/// its value is no number.
pub open spec fn variable_number(variables: Map<Seq<char>, Seq<char>>, name: Seq<char>) -> int {
    if variables.contains_key(name) {
        number_value(variables[name])
    } else {
        0
    }
}

/// The sum of the terms `Number(<name>)` that stand in `s` from index `from`
/// on, read from left to right. What stands between the terms is not read.
pub open spec fn number_sum(s: Seq<char>, variables: Map<Seq<char>, Seq<char>>, from: int) -> int
    decreases s.len() - from,
{
    if from < 0 || from >= s.len() {
        0
    } else {
        match number_term_end(s, from) {
            Some(end) => if from < end {
                variable_number(variables, s.subrange(from + "Number("@.len(), end)) + number_sum(
                    s,
                    variables,
                    end + 1,
                )
            } else {
                0
            },
            None => number_sum(s, variables, from + 1),
        }
    }
}

/// `Number(` stands somewhere in `s`.
pub open spec fn mentions_number(s: Seq<char>) -> bool {
    exists|at: int| occurs_at(s, at, "Number("@)
}

/// The value that the right side of an assignment gives: the sum of its
/// terms in decimal where it mentions `Number(`, else the right side itself.
pub open spec fn assigned_value(rhs: Seq<char>, variables: Map<Seq<char>, Seq<char>>) -> Seq<char> {
    if mentions_number(rhs) {
        decimal(number_sum(rhs, variables, 0))
    } else {
        rhs
    }
}

/// The name and the value that an expression assigns, if it is an
/// assignment: it holds exactly one `=`, the name stands before it and the
/// right side behind it, both trimmed.
pub open spec fn evaluate(expression: Seq<char>, variables: Map<Seq<char>, Seq<char>>) -> Option<
    (Seq<char>, Seq<char>),
> {
    let equals = find_char(expression, '=', 0);
    if equals < expression.len() && find_char(expression, '=', equals + 1) == expression.len() {
        Some(
            (
                trim(expression.take(equals)),
                assigned_value(trim(expression.skip(equals + 1)), variables),
            ),
        )
    } else {
        None
    }
}

/// Tests whether `Number(` stands somewhere in `v`.
fn has_number_term(v: &Vec<char>) -> (b: bool)
    ensures
        b == mentions_number(v@),
{
    let mut at: usize = 0;
    while at < v.len()
        invariant
            forall|k: int| 0 <= k < at ==> !occurs_at(v@, k, "Number("@),
        decreases v.len() - at,
    {
        if has_at(v, at, "Number(") {
            return true;
        }
        at += 1;
    }
    proof {
        reveal_strlit("Number(");
        assert forall|k: int| !occurs_at(v@, k, "Number("@) by {
            if 0 <= k < at {
            }
        }
    }
    false
}

/// Sums the terms `Number(<name>)` of `v`.
fn sum_number_terms(v: &Vec<char>, variables: &Variables) -> (total: i128)
    ensures
        total == number_sum(v@, variables@, 0),
{
    let mut total: i128 = 0;
    let mut at: usize = 0;
    proof {
        reveal_strlit("Number(");
    }
    while at < v.len()
        invariant
            "Number("@.len() == 7,
            at <= v.len(),
            number_sum(v@, variables@, 0) == total + number_sum(v@, variables@, at as int),
            -0x8000_0000 * at <= total <= 0x8000_0000 * at,
        decreases v.len() - at,
    {
        let mut end: usize = at;
        let mut found = false;
        if has_at(v, at, "Number(") {
            end = scan(v, at + 7, CharClass::Word);
            found = at + 7 < end && end < v.len() && v[end] == ')';
        }
        if found {
            let name = string_of(v, at + 7, end);
            let value: i32 = match variables.get(name.as_str()) {
                Some(text) => parse_number(text.as_str()),
                None => 0,
            };
            assert(number_term_end(v@, at as int) == Some(end as int));
            assert(value == variable_number(variables@, name@));
            total = total + value as i128;
            at = end + 1;
        } else {
            assert(number_term_end(v@, at as int) is None);
            at = at + 1;
        }
    }
    total
}

/// Evaluates an assignment `name = value`. The expression must hold exactly
/// one `=`; any other is an error. Where the right side mentions `Number(`,
/// the value is the sum, in decimal, of the variables named in its terms
/// `Number(<name>)`, each worth 0 where it has no value or is no number;
/// otherwise the value is the right side as written.
pub fn parse_assignment(expression: &str, variables: &Variables) -> (r: Result<
    (String, String),
    ExecError,
>)
    ensures
        match r {
            Ok(pair) => evaluate(expression@, variables@) == Some((pair.0@, pair.1@)),
            Err(error) => evaluate(expression@, variables@) is None && error@
                == ExecErrorView::Expression,
        },
{
    let v = chars_of(expression);
    let equals = find(&v, '=', 0);
    if equals >= v.len() {
        return Err(ExecError::Expression);
    }
    if find(&v, '=', equals + 1) != v.len() {
        return Err(ExecError::Expression);
    }
    let left = slice_of(&v, 0, equals);
    let right = slice_of(&v, equals + 1, v.len());
    assert(v@.take(equals as int) =~= left@);
    assert(v@.skip(equals + 1) =~= right@);
    let name = trimmed(&left);
    let rhs = trimmed(&right);
    let name_text = string_of(&name, 0, name.len());
    assert(name@.subrange(0, name.len() as int) =~= name@);
    let value = if has_number_term(&rhs) {
        decimal_text(sum_number_terms(&rhs, variables))
    } else {
        assert(rhs@.subrange(0, rhs.len() as int) =~= rhs@);
        string_of(&rhs, 0, rhs.len())
    };
    Ok((name_text, value))
}

/// What an instruction asks of the host, or how it moves the engine.
#[derive(Debug)]
pub enum Effect {
    /// Nothing: the next instruction of the module is due.
    Stay,
    /// A line of text is to be written.
    Print(String),
    /// A line of input is to be read and handed to `Context::accept_input`.
    Read,
    /// Control moves to the named module.
    Jump(String),
    /// The run is over.
    Exit,
}

/// An effect as a mathematical value.
pub enum EffectView {
    Stay,
    Print(Seq<char>),
    Read,
    Jump(Seq<char>),
    Exit,
}

impl View for Effect {
    type V = EffectView;

    open spec fn view(&self) -> EffectView {
        match self {
            Effect::Stay => EffectView::Stay,
            Effect::Print(text) => EffectView::Print(text@),
            Effect::Read => EffectView::Read,
            Effect::Jump(target) => EffectView::Jump(target@),
            Effect::Exit => EffectView::Exit,
        }
    }
}

/// The result of an instruction or of a visit as a mathematical value.
pub open spec fn outcome_view(r: Result<Effect, ExecError>) -> Result<EffectView, ExecErrorView> {
    match r {
        Ok(effect) => Ok(effect@),
        Err(error) => Err(error@),
    }
}

/// The state of a run: the variables, the module that is being visited, and
/// the index in it of the instruction that is due. The script is not part of
/// it, since a run never changes the script.
pub struct Context<'a> {
    /// The variables.
    pub variables: Variables,
    /// The name of the module that is being visited.
    pub current_module: String,
    /// The script that is run.
    pub script: &'a Script,
    /// The index, in the current module, of the instruction that is due.
    pub position: usize,
}

/// The state of a run as a mathematical value.
pub struct ContextView {
    pub variables: Map<Seq<char>, Seq<char>>,
    pub current_module: Seq<char>,
    pub position: int,
}

impl<'a> View for Context<'a> {
    type V = ContextView;

    open spec fn view(&self) -> ContextView {
        ContextView {
            variables: self.variables@,
            current_module: self.current_module@,
            position: self.position as int,
        }
    }
}

impl ContextView {
    /// The state in which a run begins at the named module.
    pub open spec fn start(module: Seq<char>) -> ContextView {
        ContextView { variables: Map::empty(), current_module: module, position: 0 }
    }

    /// The state after a line of input has been handed over: the trimmed
    /// line is the last input, unless it is empty, which changes nothing.
    pub open spec fn heard(self, line: Seq<char>) -> ContextView {
        if trim(line).len() > 0 {
            ContextView { variables: self.variables.insert(last_input(), trim(line)), ..self }
        } else {
            self
        }
    }
}

/// A jump to `target`: an error where the script lacks that module.
pub open spec fn jump(modules: Map<Seq<char>, ModuleView>, target: Seq<char>) -> Result<
    EffectView,
    ExecErrorView,
> {
    if modules.contains_key(target) {
        Ok(EffectView::Jump(target))
    } else {
        Err(ExecErrorView::Transition(target))
    }
}

/// What a `for` does once its pattern has been tried on the last input: an
/// error where the pattern was refused, a jump where a match was found, and
/// nothing where none was.
pub open spec fn branch(
    modules: Map<Seq<char>, ModuleView>,
    found: Option<bool>,
    pattern: Seq<char>,
    target: Seq<char>,
) -> Result<EffectView, ExecErrorView> {
    match found {
        None => Err(ExecErrorView::Pattern(pattern)),
        Some(true) => jump(modules, target),
        Some(false) => Ok(EffectView::Stay),
    }
}

/// What one instruction does: the variables after it, and its effect or error.
pub struct Step {
    pub variables: Map<Seq<char>, Seq<char>>,
    pub result: Result<EffectView, ExecErrorView>,
}

/// The pattern that `instruction` has compiled before it does anything else:
/// that of a `for`, once there is a last input to try it on.
pub open spec fn tried_pattern(
    variables: Map<Seq<char>, Seq<char>>,
    instruction: InstructionView,
) -> Option<Seq<char>> {
    match instruction {
        InstructionView::For(pattern, _) => if variables.contains_key(last_input()) {
            Some(pattern)
        } else {
            None
        },
        _ => None,
    }
}

/// What `instruction` does in a script with the given modules when the
/// variables are as given, provided that the pattern it tries, if it tries
/// one, is accepted as a regular expression. An instruction that fails
/// changes no variable.
pub open spec fn step(
    modules: Map<Seq<char>, ModuleView>,
    variables: Map<Seq<char>, Seq<char>>,
    instruction: InstructionView,
) -> Step {
    match instruction {
        InstructionView::Output(text) => Step {
            variables,
            result: Ok(EffectView::Print(interpolate(text, variables))),
        },
        InstructionView::Goto(target) => Step { variables, result: jump(modules, target) },
        InstructionView::Input => Step { variables, result: Ok(EffectView::Read) },
        InstructionView::For(pattern, target) => if variables.contains_key(last_input()) {
            Step {
                variables,
                result: branch(
                    modules,
                    Some(pattern_matches(pattern, variables[last_input()])),
                    pattern,
                    target,
                ),
            }
        } else {
            Step { variables, result: Ok(EffectView::Stay) }
        },
        InstructionView::DefaultGoto(target) => Step { variables, result: jump(modules, target) },
        InstructionView::Save(name) => if variables.contains_key(last_input()) {
            Step {
                variables: variables.insert(name, variables[last_input()]),
                result: Ok(EffectView::Stay),
            }
        } else {
            Step { variables, result: Err(ExecErrorView::Variable) }
        },
        InstructionView::Eval(expression) => match evaluate(expression, variables) {
            Some(pair) => Step {
                variables: variables.insert(pair.0, pair.1),
                result: Ok(EffectView::Stay),
            },
            None => Step { variables, result: Err(ExecErrorView::Expression) },
        },
        InstructionView::Exit => Step { variables, result: Ok(EffectView::Exit) },
    }
}

/// Whether `done` is something that `instruction` may do. It is what `step`
/// says; only where the instruction tries a pattern it may also be the error
/// of a refused pattern, since which patterns are refused is for the `regex`
/// crate to say.
pub open spec fn step_allows(
    modules: Map<Seq<char>, ModuleView>,
    variables: Map<Seq<char>, Seq<char>>,
    instruction: InstructionView,
    done: Step,
) -> bool {
    ||| done == step(modules, variables, instruction)
    ||| {
        &&& tried_pattern(variables, instruction) matches Some(pattern)
        &&& done == Step { variables, result: Err(ExecErrorView::Pattern(pattern)) }
    }
}

/// Where a visit stops: the state in which it leaves the engine, and the
/// effect or the error that stopped it.
pub struct Visit {
    pub context: ContextView,
    pub result: Result<EffectView, ExecErrorView>,
}

/// Runs the instructions of the current module from the one that is due, up
/// to the first that does more than stay, provided that no pattern is refused.
///
/// - Text to print or a line to read: that instruction is done, the next is due.
/// - A jump: the target is the current module, its first instruction is due.
/// - The end of the run or an error: the same instruction stays due, so that
///   a further visit ends in the same way.
/// - No instruction left: the first instruction of the same module is due.
pub open spec fn advance(
    modules: Map<Seq<char>, ModuleView>,
    instructions: Seq<InstructionView>,
    context: ContextView,
) -> Visit
    decreases instructions.len() - context.position,
{
    if context.position < 0 || context.position >= instructions.len() {
        Visit { context: ContextView { position: 0, ..context }, result: Ok(EffectView::Stay) }
    } else {
        let done = step(modules, context.variables, instructions[context.position]);
        let next = ContextView {
            variables: done.variables,
            position: context.position + 1,
            ..context
        };
        match done.result {
            Ok(EffectView::Stay) => advance(modules, instructions, next),
            Ok(EffectView::Print(_)) | Ok(EffectView::Read) => Visit {
                context: next,
                result: done.result,
            },
            Ok(EffectView::Jump(target)) => Visit {
                context: ContextView {
                    variables: done.variables,
                    current_module: target,
                    position: 0,
                },
                result: done.result,
            },
            Ok(EffectView::Exit) | Err(_) => Visit { context, result: done.result },
        }
    }
}

/// One visit of the current module, provided that no pattern is refused: an
/// error where the script lacks the module, and otherwise what `advance`
/// gives on its instructions.
pub open spec fn visit(modules: Map<Seq<char>, ModuleView>, context: ContextView) -> Visit {
    if modules.contains_key(context.current_module) {
        advance(modules, modules[context.current_module].instructions, context)
    } else {
        Visit { context, result: Err(ExecErrorView::State(context.current_module)) }
    }
}

/// Whether `stop` is where the refusal of a pattern can end a visit: the
/// instructions before it stay, it tries a pattern, and `stop` holds the
/// state in which it was reached and the error of that pattern.
pub open spec fn advance_refused(
    modules: Map<Seq<char>, ModuleView>,
    instructions: Seq<InstructionView>,
    context: ContextView,
    stop: Visit,
) -> bool
    decreases instructions.len() - context.position,
{
    &&& 0 <= context.position < instructions.len()
    &&& {
        let instruction = instructions[context.position];
        let done = step(modules, context.variables, instruction);
        ||| {
            &&& tried_pattern(context.variables, instruction) matches Some(pattern)
            &&& stop == Visit { context, result: Err(ExecErrorView::Pattern(pattern)) }
        }
        ||| {
            &&& done.result == Ok::<EffectView, ExecErrorView>(EffectView::Stay)
            &&& advance_refused(
                modules,
                instructions,
                ContextView {
                    variables: done.variables,
                    position: context.position + 1,
                    ..context
                },
                stop,
            )
        }
    }
}

/// Whether `stop` is where the refusal of a pattern can end a visit of the
/// current module.
pub open spec fn visit_refused(
    modules: Map<Seq<char>, ModuleView>,
    context: ContextView,
    stop: Visit,
) -> bool {
    &&& modules.contains_key(context.current_module)
    &&& advance_refused(modules, modules[context.current_module].instructions, context, stop)
}

/// Whether `stop` is a way in which a visit may end: as `visit` says, or at
/// a pattern that is refused.
pub open spec fn visit_allows(
    modules: Map<Seq<char>, ModuleView>,
    context: ContextView,
    stop: Visit,
) -> bool {
    stop == visit(modules, context) || visit_refused(modules, context, stop)
}

/// A visit that a refused pattern ends fails with the error of a pattern.
pub proof fn lemma_refusal_is_an_error(
    modules: Map<Seq<char>, ModuleView>,
    instructions: Seq<InstructionView>,
    context: ContextView,
    stop: Visit,
)
    requires
        advance_refused(modules, instructions, context, stop),
    ensures
        stop.result matches Err(ExecErrorView::Pattern(_)),
    decreases instructions.len() - context.position,
{
    let instruction = instructions[context.position];
    let done = step(modules, context.variables, instruction);
    let next = ContextView { variables: done.variables, position: context.position + 1, ..context };
    if done.result == Ok::<EffectView, ExecErrorView>(EffectView::Stay) && advance_refused(
        modules,
        instructions,
        next,
        stop,
    ) {
        lemma_refusal_is_an_error(modules, instructions, next, stop);
    }
}

/// While every pattern is accepted, no visit fails with the error of a
/// pattern: that error shows that a pattern was refused.
pub proof fn lemma_no_pattern_error(modules: Map<Seq<char>, ModuleView>, context: ContextView)
    ensures
        !(visit(modules, context).result matches Err(ExecErrorView::Pattern(_))),
{
    if modules.contains_key(context.current_module) {
        lemma_no_pattern_error_in(modules, modules[context.current_module].instructions, context);
    }
}

/// While every pattern is accepted, no run of instructions fails with the
/// error of a pattern.
proof fn lemma_no_pattern_error_in(
    modules: Map<Seq<char>, ModuleView>,
    instructions: Seq<InstructionView>,
    context: ContextView,
)
    ensures
        !(advance(modules, instructions, context).result matches Err(ExecErrorView::Pattern(_))),
    decreases instructions.len() - context.position,
{
    if 0 <= context.position < instructions.len() {
        let done = step(modules, context.variables, instructions[context.position]);
        if done.result == Ok::<EffectView, ExecErrorView>(EffectView::Stay) {
            lemma_no_pattern_error_in(
                modules,
                instructions,
                ContextView { variables: done.variables, position: context.position + 1, ..context },
            );
        }
    }
}

/// An instruction moves control only to a module that the script holds.
pub proof fn lemma_jump_lands(
    modules: Map<Seq<char>, ModuleView>,
    variables: Map<Seq<char>, Seq<char>>,
    instruction: InstructionView,
)
    ensures
        step(modules, variables, instruction).result matches Ok(EffectView::Jump(target))
            ==> modules.contains_key(target),
{
}

/// What `advance` returns with a jump is in a module of the script, and
/// anything else leaves the current module as it was.
proof fn lemma_advance_stays_in_script(
    modules: Map<Seq<char>, ModuleView>,
    instructions: Seq<InstructionView>,
    context: ContextView,
)
    ensures
        ({
            let after = advance(modules, instructions, context);
            match after.result {
                Ok(EffectView::Jump(target)) => after.context.current_module == target
                    && modules.contains_key(target),
                _ => after.context.current_module == context.current_module,
            }
        }),
    decreases instructions.len() - context.position,
{
    if 0 <= context.position < instructions.len() {
        let done = step(modules, context.variables, instructions[context.position]);
        lemma_jump_lands(modules, context.variables, instructions[context.position]);
        if done.result == Ok::<EffectView, ExecErrorView>(EffectView::Stay) {
            lemma_advance_stays_in_script(
                modules,
                instructions,
                ContextView { variables: done.variables, position: context.position + 1, ..context },
            );
        }
    }
}

/// A visit that does not fail leaves the engine in a module of the script:
/// every target is looked up at the moment at which control moves to it.
pub proof fn lemma_visit_stays_in_script(modules: Map<Seq<char>, ModuleView>, context: ContextView)
    ensures
        visit(modules, context).result is Ok ==> modules.contains_key(
            visit(modules, context).context.current_module,
        ),
{
    if modules.contains_key(context.current_module) {
        lemma_advance_stays_in_script(
            modules,
            modules[context.current_module].instructions,
            context,
        );
    }
}

/// Where `advance` stops at the end of the run or at an error, it stops in
/// the same way when it is called again.
proof fn lemma_advance_end_is_final(
    modules: Map<Seq<char>, ModuleView>,
    instructions: Seq<InstructionView>,
    context: ContextView,
)
    ensures
        ({
            let after = advance(modules, instructions, context);
            after.result is Err || after.result == Ok::<EffectView, ExecErrorView>(
                EffectView::Exit,
            ) ==> {
                &&& after.context.current_module == context.current_module
                &&& advance(modules, instructions, after.context) == after
            }
        }),
    decreases instructions.len() - context.position,
{
    if 0 <= context.position < instructions.len() {
        let done = step(modules, context.variables, instructions[context.position]);
        if done.result == Ok::<EffectView, ExecErrorView>(EffectView::Stay) {
            lemma_advance_end_is_final(
                modules,
                instructions,
                ContextView { variables: done.variables, position: context.position + 1, ..context },
            );
        }
    }
}

/// The end of a run is final: after a visit that ended the run or failed, a
/// further visit gives the same result and leaves the same state.
pub proof fn lemma_end_is_final(modules: Map<Seq<char>, ModuleView>, context: ContextView)
    ensures
        ({
            let after = visit(modules, context);
            after.result is Err || after.result == Ok::<EffectView, ExecErrorView>(
                EffectView::Exit,
            ) ==> visit(modules, after.context) == after
        }),
{
    if modules.contains_key(context.current_module) {
        lemma_advance_end_is_final(
            modules,
            modules[context.current_module].instructions,
            context,
        );
    }
}

impl<'a> Context<'a> {
    /// The state in which a run of `script` begins at `initial_module`: no
    /// variable has a value, and the first instruction of the module is due.
    pub fn new(initial_module: &str, script: &'a Script) -> (context: Context<'a>)
        ensures
            context@ == ContextView::start(initial_module@),
            context.script == script,
    {
        Context {
            variables: Variables::new(),
            current_module: String::from_str(initial_module),
            script,
            position: 0,
        }
    }

    /// Hands over the line that was read for an `Effect::Read`. The line is
    /// trimmed and becomes the last input; an empty one changes nothing.
    pub fn accept_input(&mut self, line: &str)
        ensures
            final(self)@ == old(self)@.heard(line@),
            final(self).script == old(self).script,
    {
        let chars = chars_of(line);
        let t = trimmed(&chars);
        if t.len() > 0 {
            let value = string_of(&t, 0, t.len());
            assert(t@.subrange(0, t.len() as int) =~= t@);
            self.variables.set(String::from_str("last_input"), value);
        }
    }
}

/// Jumps to `target` if `script` holds a module of that name.
pub fn jump_to(script: &Script, target: &String) -> (r: Result<Effect, ExecError>)
    ensures
        outcome_view(r) == jump(script@, target@),
{
    if script.modules.contains_key(target.as_str()) {
        Ok(Effect::Jump(target.clone()))
    } else {
        Err(ExecError::Transition(target.clone()))
    }
}

/// Decides what a `for` does, given what came of trying its pattern on the
/// last input: `None` where the pattern was refused, else whether a match
/// was found.
pub fn branch_on(script: &Script, found: Option<bool>, pattern: &String, target: &String) -> (r:
    Result<Effect, ExecError>)
    ensures
        outcome_view(r) == branch(script@, found, pattern@, target@),
{
    match found {
        None => Err(ExecError::Pattern(pattern.clone())),
        Some(true) => jump_to(script, target),
        Some(false) => Ok(Effect::Stay),
    }
}

/// Executes one instruction: changes the variables as the instruction says,
/// and returns what it asks of the host or where it moves control. Neither
/// the current module nor the position changes; `execute_module` sees to both.
///
/// Nothing is written and nothing is read here. `Output` returns the text
/// with its placeholders replaced, and `Input` returns `Effect::Read`: the
/// host reads a line and hands it to `Context::accept_input`.
///
/// A `for` compiles its pattern once there is a last input to try it on. The
/// result is then either what `step` says or, where the pattern is refused,
/// the error that holds the pattern; every other instruction does exactly
/// what `step` says.
pub fn execute_instruction(instruction: &Instruction, context: &mut Context) -> (r: Result<
    Effect,
    ExecError,
>)
    ensures
        step_allows(
            old(context).script@,
            old(context).variables@,
            instruction@,
            Step { variables: final(context).variables@, result: outcome_view(r) },
        ),
        final(context).current_module == old(context).current_module,
        final(context).position == old(context).position,
        final(context).script == old(context).script,
{
    match instruction {
        Instruction::Output(text) => Ok(
            Effect::Print(replace_variables(text.as_str(), &context.variables)),
        ),
        Instruction::Goto(target) => jump_to(context.script, target),
        Instruction::Input => Ok(Effect::Read),
        Instruction::For(pattern, target) => {
            match context.variables.get("last_input") {
                Some(input) => {
                    let found = search(pattern.as_str(), input.as_str());
                    branch_on(context.script, found, pattern, target)
                },
                None => Ok(Effect::Stay),
            }
        },
        Instruction::DefaultGoto(target) => jump_to(context.script, target),
        Instruction::Save(name) => {
            match context.variables.get("last_input") {
                Some(input) => {
                    let value = input.clone();
                    context.variables.set(name.clone(), value);
                    Ok(Effect::Stay)
                },
                None => Err(ExecError::Variable),
            }
        },
        Instruction::Eval(expression) => {
            match parse_assignment(expression.as_str(), &context.variables) {
                Ok(pair) => {
                    context.variables.set(pair.0, pair.1);
                    Ok(Effect::Stay)
                },
                Err(error) => Err(error),
            }
        },
        Instruction::Exit => Ok(Effect::Exit),
    }
}

/// Visits the current module: executes its instructions from the one that is
/// due until one prints, reads, jumps, ends the run or fails, and returns
/// that effect or error. Where the module has no instruction left, the
/// result is `Effect::Stay` and the module is due again from its first
/// instruction. A module that the script lacks is an error.
///
/// The host calls this in a loop: it writes the text of an `Effect::Print`,
/// reads a line for an `Effect::Read`, stops at `Effect::Exit` or at an
/// error, and calls again after anything else.
///
/// The visit ends as `visit` says, unless it comes to a pattern that is
/// refused: it then ends at that `for`, with the error that holds the pattern.
pub fn execute_module(context: &mut Context) -> (r: Result<Effect, ExecError>)
    ensures
        visit_allows(
            old(context).script@,
            old(context)@,
            Visit { context: final(context)@, result: outcome_view(r) },
        ),
        final(context).script == old(context).script,
{
    let script = context.script;
    let module = match script.modules.get(context.current_module.as_str()) {
        Some(module) => module,
        None => {
            return Err(ExecError::State(context.current_module.clone()));
        },
    };
    let ghost instructions = module@.instructions;
    assert(script@[context.current_module@] == module@);
    while context.position < module.instructions.len()
        invariant
            context.script == script,
            context.script == old(context).script,
            context.current_module == old(context).current_module,
            instructions == module@.instructions,
            instructions.len() == module.instructions.len(),
            script@.contains_key(old(context).current_module@),
            script@[old(context).current_module@].instructions == instructions,
            visit(script@, old(context)@) == advance(script@, instructions, context@),
            forall|stop: Visit| #[trigger]
                advance_refused(script@, instructions, context@, stop) ==> advance_refused(
                    script@,
                    instructions,
                    old(context)@,
                    stop,
                ),
        decreases module.instructions.len() - context.position,
    {
        let instruction = &module.instructions[context.position];
        assert(instructions[context.position as int] == instruction@);
        let ghost before = context@;
        let outcome = execute_instruction(instruction, context);
        proof {
            let done = Step { variables: context.variables@, result: outcome_view(outcome) };
            if done == step(script@, before.variables, instruction@) {
                if done.result == Ok::<EffectView, ExecErrorView>(EffectView::Stay) {
                    let next = ContextView { variables: done.variables, position: before.position + 1, ..before };
                    assert forall|stop: Visit| #[trigger]
                        advance_refused(script@, instructions, next, stop) implies advance_refused(
                        script@,
                        instructions,
                        old(context)@,
                        stop,
                    ) by {
                        assert(advance_refused(script@, instructions, before, stop));
                    }
                }
            } else {
                let stop = Visit { context: before, result: done.result };
                assert(context@ == before);
                assert(advance_refused(script@, instructions, before, stop));
            }
        }
        match outcome {
            Ok(Effect::Stay) => {
                context.position = context.position + 1;
            },
            Ok(Effect::Print(text)) => {
                context.position = context.position + 1;
                return Ok(Effect::Print(text));
            },
            Ok(Effect::Read) => {
                context.position = context.position + 1;
                return Ok(Effect::Read);
            },
            Ok(Effect::Jump(target)) => {
                context.current_module = target.clone();
                context.position = 0;
                return Ok(Effect::Jump(target));
            },
            Ok(Effect::Exit) => {
                return Ok(Effect::Exit);
            },
            Err(error) => {
                return Err(error);
            },
        }
    }
    context.position = 0;
    Ok(Effect::Stay)
}

/// How a run ended.
#[derive(Debug)]
pub enum Ending {
    /// An `exit` was executed.
    Exited,
    /// An instruction failed, or a module was missing.
    Failed(ExecError),
    /// The steps that the run was allowed were used up.
    Unfinished,
}

/// The end of a run as a mathematical value.
pub enum EndingView {
    Exited,
    Failed(ExecErrorView),
    Unfinished,
}

impl View for Ending {
    type V = EndingView;

    open spec fn view(&self) -> EndingView {
        match self {
            Ending::Exited => EndingView::Exited,
            Ending::Failed(error) => EndingView::Failed(error@),
            Ending::Unfinished => EndingView::Unfinished,
        }
    }
}

/// The texts of a vector as mathematical values, in the same order.
pub open spec fn texts_view(s: Seq<String>) -> Seq<Seq<char>> {
    Seq::new(s.len(), |i: int| s[i]@)
}

/// What a run wrote, line by line, and how it ended.
#[derive(Debug)]
pub struct Transcript {
    /// The lines that were written, in order.
    pub output: Vec<String>,
    /// How the run ended.
    pub ending: Ending,
}

/// A transcript as a mathematical value.
pub struct TranscriptView {
    pub output: Seq<Seq<char>>,
    pub ending: EndingView,
}

impl View for Transcript {
    type V = TranscriptView;

    open spec fn view(&self) -> TranscriptView {
        TranscriptView { output: texts_view(self.output@), ending: self.ending@ }
    }
}

/// What `execute_script` does with a run that fails.
#[derive(Clone, Copy, Debug)]
pub enum FailurePolicy {
    /// The run is given up: the error is returned alone, for the host to
    /// surface and to stop on.
    Abort,
    /// The run stops and the host lives on: the transcript is returned, with
    /// a last line that reports the error.
    Report,
}

/// The name of the module at which every run of a script begins.
pub open spec fn entry_module() -> Seq<char> {
    "main"@
}

/// The line that reports an error at the end of a transcript.
pub open spec fn report_line(error: ExecErrorView) -> Seq<char> {
    "模块执行错误: "@ + error.message()
}

/// A run of at most `steps` visits from the given state, with `input` as the
/// lines that are still to be read and `output` as the lines written so far,
/// provided that no pattern is refused. A line is taken from `input` for each
/// `Read`; once there is none left, a `Read` changes nothing, as an empty
/// line does.
pub open spec fn run(
    modules: Map<Seq<char>, ModuleView>,
    context: ContextView,
    input: Seq<Seq<char>>,
    output: Seq<Seq<char>>,
    steps: nat,
) -> TranscriptView
    decreases steps,
{
    if steps == 0 {
        TranscriptView { output, ending: EndingView::Unfinished }
    } else {
        let visited = visit(modules, context);
        let left = (steps - 1) as nat;
        match visited.result {
            Ok(EffectView::Print(text)) => run(
                modules,
                visited.context,
                input,
                output.push(text),
                left,
            ),
            Ok(EffectView::Read) => if input.len() > 0 {
                run(modules, visited.context.heard(input[0]), input.drop_first(), output, left)
            } else {
                run(modules, visited.context, input, output, left)
            },
            Ok(EffectView::Stay) | Ok(EffectView::Jump(_)) => run(
                modules,
                visited.context,
                input,
                output,
                left,
            ),
            Ok(EffectView::Exit) => TranscriptView { output, ending: EndingView::Exited },
            Err(error) => TranscriptView { output, ending: EndingView::Failed(error) },
        }
    }
}

/// Whether `whole` is what the refusal of a pattern can make of a run: the
/// run goes as `run` says up to a visit that comes to a refused pattern, and
/// fails there with the error of that pattern and with what it had written.
pub open spec fn run_refused(
    modules: Map<Seq<char>, ModuleView>,
    context: ContextView,
    input: Seq<Seq<char>>,
    output: Seq<Seq<char>>,
    steps: nat,
    whole: TranscriptView,
) -> bool
    decreases steps,
{
    &&& steps > 0
    &&& {
        let visited = visit(modules, context);
        let left = (steps - 1) as nat;
        ||| exists|stop: Visit|
            {
                &&& #[trigger] visit_refused(modules, context, stop)
                &&& stop.result matches Err(error)
                &&& whole == TranscriptView { output, ending: EndingView::Failed(error) }
            }
        ||| match visited.result {
            Ok(EffectView::Print(text)) => run_refused(
                modules,
                visited.context,
                input,
                output.push(text),
                left,
                whole,
            ),
            Ok(EffectView::Read) => if input.len() > 0 {
                run_refused(
                    modules,
                    visited.context.heard(input[0]),
                    input.drop_first(),
                    output,
                    left,
                    whole,
                )
            } else {
                run_refused(modules, visited.context, input, output, left, whole)
            },
            Ok(EffectView::Stay) | Ok(EffectView::Jump(_)) => run_refused(
                modules,
                visited.context,
                input,
                output,
                left,
                whole,
            ),
            _ => false,
        }
    }
}

/// Whether `whole` is a way in which a run may go: as `run` says, or up to a
/// pattern that is refused.
pub open spec fn run_allows(
    modules: Map<Seq<char>, ModuleView>,
    context: ContextView,
    input: Seq<Seq<char>>,
    output: Seq<Seq<char>>,
    steps: nat,
    whole: TranscriptView,
) -> bool {
    whole == run(modules, context, input, output, steps) || run_refused(
        modules,
        context,
        input,
        output,
        steps,
        whole,
    )
}

/// Whether a visit that does not end the run leads from one state of a run
/// to the next: the text of a `Print` is written, a line is taken from the
/// input for a `Read`, and anything else changes neither.
pub open spec fn run_goes_on(
    visited: Visit,
    input: Seq<Seq<char>>,
    output: Seq<Seq<char>>,
    next_context: ContextView,
    next_input: Seq<Seq<char>>,
    next_output: Seq<Seq<char>>,
) -> bool {
    match visited.result {
        Ok(EffectView::Print(text)) => {
            &&& next_context == visited.context
            &&& next_input == input
            &&& next_output == output.push(text)
        },
        Ok(EffectView::Read) => if input.len() > 0 {
            &&& next_context == visited.context.heard(input[0])
            &&& next_input == input.drop_first()
            &&& next_output == output
        } else {
            &&& next_context == visited.context
            &&& next_input == input
            &&& next_output == output
        },
        Ok(EffectView::Stay) | Ok(EffectView::Jump(_)) => {
            &&& next_context == visited.context
            &&& next_input == input
            &&& next_output == output
        },
        _ => false,
    }
}

/// A run goes on from the state that a visit leads to: what it comes to from
/// there, with one step less, is what it comes to from here.
proof fn lemma_run_goes_on(
    modules: Map<Seq<char>, ModuleView>,
    context: ContextView,
    input: Seq<Seq<char>>,
    output: Seq<Seq<char>>,
    steps: nat,
    next_context: ContextView,
    next_input: Seq<Seq<char>>,
    next_output: Seq<Seq<char>>,
)
    requires
        steps > 0,
        run_goes_on(visit(modules, context), input, output, next_context, next_input, next_output),
    ensures
        run(modules, context, input, output, steps) == run(
            modules,
            next_context,
            next_input,
            next_output,
            (steps - 1) as nat,
        ),
        forall|whole: TranscriptView| #[trigger]
            run_refused(modules, next_context, next_input, next_output, (steps - 1) as nat, whole)
                ==> run_refused(modules, context, input, output, steps, whole),
{
}

/// What becomes of a run under a policy: a run that failed is given up or
/// reported, any other is returned as it is.
pub open spec fn settle(whole: TranscriptView, policy: FailurePolicy) -> Result<
    TranscriptView,
    ExecErrorView,
> {
    match whole.ending {
        EndingView::Failed(error) => match policy {
            FailurePolicy::Abort => Err(error),
            FailurePolicy::Report => Ok(
                TranscriptView { output: whole.output.push(report_line(error)), ..whole },
            ),
        },
        _ => Ok(whole),
    }
}

/// The result of a run as a mathematical value.
pub open spec fn run_view(r: Result<Transcript, ExecError>) -> Result<
    TranscriptView,
    ExecErrorView,
> {
    match r {
        Ok(transcript) => Ok(transcript@),
        Err(error) => Err(error@),
    }
}

/// Runs `script` from its module `main` on recorded input, for at most
/// `steps` visits, and returns what it wrote and how it ended.
///
/// The run ends at an `exit`, at the first error, or when the steps are used
/// up; a module without an instruction that leaves it is visited again and
/// again, so only the bound on the steps ends such a run. What a failed run
/// returns is a matter of `policy`.
///
/// The run goes as `run` says, unless it comes to a pattern that is refused:
/// it then fails at that `for`, with the error that holds the pattern.
pub fn execute_script(script: &Script, input: &Vec<String>, steps: usize, policy: FailurePolicy) -> (r:
    Result<Transcript, ExecError>)
    ensures
        exists|whole: TranscriptView|
            {
                &&& #[trigger] run_allows(
                    script@,
                    ContextView::start(entry_module()),
                    texts_view(input@),
                    Seq::empty(),
                    steps as nat,
                    whole,
                )
                &&& run_view(r) == settle(whole, policy)
            },
{
    let mut context = Context::new("main", script);
    let mut output: Vec<String> = Vec::new();
    let mut next: usize = 0;
    let mut left: usize = steps;
    let ghost start = ContextView::start(entry_module());
    let ghost all = texts_view(input@);
    let ghost none = Seq::<Seq<char>>::empty();
    assert(all.skip(0) =~= all);
    assert(texts_view(output@) =~= none);
    while left > 0
        invariant
            context.script == script,
            next <= input.len(),
            start == ContextView::start(entry_module()),
            all == texts_view(input@),
            none == Seq::<Seq<char>>::empty(),
            run(script@, start, all, none, steps as nat) == run(
                script@,
                context@,
                all.skip(next as int),
                texts_view(output@),
                left as nat,
            ),
            forall|whole: TranscriptView| #[trigger]
                run_refused(
                    script@,
                    context@,
                    all.skip(next as int),
                    texts_view(output@),
                    left as nat,
                    whole,
                ) ==> run_refused(script@, start, all, none, steps as nat, whole),
        decreases left,
    {
        let ghost before = context@;
        let ghost lines = all.skip(next as int);
        let ghost written = texts_view(output@);
        let outcome = execute_module(&mut context);
        let ghost visited = Visit { context: context@, result: outcome_view(outcome) };
        proof {
            if visited != visit(script@, before) {
                lemma_refusal_is_an_error(
                    script@,
                    script@[before.current_module].instructions,
                    before,
                    visited,
                );
                assert(visit_refused(script@, before, visited));
            } else {
                lemma_no_pattern_error(script@, before);
            }
        }
        match outcome {
            Ok(Effect::Print(text)) => {
                output.push(text);
                assert(texts_view(output@) =~= written.push(text@));
            },
            Ok(Effect::Read) => {
                if next < input.len() {
                    context.accept_input(input[next].as_str());
                    assert(lines[0] == input[next as int]@);
                    assert(lines.drop_first() =~= all.skip(next + 1));
                    next = next + 1;
                }
            },
            Ok(Effect::Stay) => {},
            Ok(Effect::Jump(_)) => {},
            Ok(Effect::Exit) => {
                let transcript = Transcript { output, ending: Ending::Exited };
                assert(run_allows(script@, start, all, none, steps as nat, transcript@));
                return Ok(transcript);
            },
            Err(error) => {
                let ghost whole = TranscriptView {
                    output: written,
                    ending: EndingView::Failed(error@),
                };
                assert(run_allows(script@, start, all, none, steps as nat, whole)) by {
                    if visited != visit(script@, before) {
                        assert(run_refused(script@, before, lines, written, left as nat, whole));
                    }
                }
                match policy {
                    FailurePolicy::Abort => {
                        return Err(error);
                    },
                    FailurePolicy::Report => {
                        let mut line = String::from_str("模块执行错误: ");
                        line.append(error.message().as_str());
                        output.push(line);
                        assert(texts_view(output@) =~= written.push(report_line(error@)));
                        return Ok(Transcript { output, ending: Ending::Failed(error) });
                    },
                }
            },
        }
        proof {
            lemma_run_goes_on(
                script@,
                before,
                lines,
                written,
                left as nat,
                context@,
                all.skip(next as int),
                texts_view(output@),
            );
        }
        left = left - 1;
    }
    let transcript = Transcript { output, ending: Ending::Unfinished };
    assert(run_allows(script@, start, all, none, steps as nat, transcript@));
    Ok(transcript)
}

} // verus!
