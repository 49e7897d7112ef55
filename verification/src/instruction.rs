//! The script language: instructions, modules, scripts, and the parser that
//! reads them from text.

use crate::text::{
    chars_of, find, find_char, has_at, is_word, is_word_char, lemma_find_char,
    lemma_find_char_is, lemma_run_end, occurs_at, run_end, run_start, scan, scan_back, slice_of,
    string_of, trim, trimmed, CharClass,
};
use vstd::hash_map::StringHashMap;
use vstd::prelude::*;

verus! {

/// One instruction of a module.
#[derive(Clone, PartialEq, Debug)]
pub enum Instruction {
    /// Write a line of text; `${name}` in it stands for a variable.
    Output(String),
    /// Go to the named module.
    Goto(String),
    /// Read a line of input.
    Input,
    /// Go to the named module if the last input matches the regular expression.
    For(String, String),
    /// Go to the named module; written after a chain of `For` as the fallback.
    DefaultGoto(String),
    /// Copy the last input into the named variable.
    Save(String),
    /// Evaluate an assignment and store its value.
    Eval(String),
    /// End the run.
    Exit,
}

/// An instruction as a mathematical value.
pub enum InstructionView {
    Output(Seq<char>),
    Goto(Seq<char>),
    Input,
    For(Seq<char>, Seq<char>),
    DefaultGoto(Seq<char>),
    Save(Seq<char>),
    Eval(Seq<char>),
    Exit,
}

impl View for Instruction {
    type V = InstructionView;

    open spec fn view(&self) -> InstructionView {
        match self {
            Instruction::Output(text) => InstructionView::Output(text@),
            Instruction::Goto(target) => InstructionView::Goto(target@),
            Instruction::Input => InstructionView::Input,
            Instruction::For(pattern, target) => InstructionView::For(pattern@, target@),
            Instruction::DefaultGoto(target) => InstructionView::DefaultGoto(target@),
            Instruction::Save(name) => InstructionView::Save(name@),
            Instruction::Eval(expression) => InstructionView::Eval(expression@),
            Instruction::Exit => InstructionView::Exit,
        }
    }
}

/// The message of a line that is no instruction starts with these words.
pub open spec fn unparsable_prefix() -> Seq<char> {
    "无法解析指令："@
}

/// No character of `s` is a line feed.
pub open spec fn single_line(s: Seq<char>) -> bool {
    forall|i: int| 0 <= i < s.len() ==> #[trigger] s[i] != '\n'
}

/// Where the argument begins if `t` holds `keyword` at `at` and a gap after
/// it: the index of the first character behind the gap.
pub open spec fn after_keyword(t: Seq<char>, at: int, keyword: Seq<char>) -> Option<int> {
    let gap = at + keyword.len();
    let next = run_end(t, gap, CharClass::Space);
    if occurs_at(t, at, keyword) && gap < next {
        Some(next)
    } else {
        None
    }
}

/// The word of a line made of `keyword`, a gap and a word.
pub open spec fn keyword_word(t: Seq<char>, at: int, keyword: Seq<char>) -> Option<Seq<char>> {
    match after_keyword(t, at, keyword) {
        Some(start) => if is_word(t.skip(start)) {
            Some(t.skip(start))
        } else {
            None
        },
        None => None,
    }
}

/// The text of a line `output "<text>"`: what stands between the quote that
/// follows the gap and the quote that ends the line.
pub open spec fn output_text(t: Seq<char>) -> Option<Seq<char>> {
    match after_keyword(t, 0, "output"@) {
        Some(quote) => {
            let text = t.subrange(quote + 1, t.len() - 1);
            if quote + 2 <= t.len() && t[quote] == '"' && t.last() == '"' && single_line(text) {
                Some(text)
            } else {
                None
            }
        },
        None => None,
    }
}

/// The pattern and the target of a line `for /<pattern>/ goto <word>`. The
/// line is read from its end: the word, a gap, `goto`, a gap and the slash
/// that closes the pattern, which therefore is the last slash before `goto`.
pub open spec fn for_parts(t: Seq<char>) -> Option<(Seq<char>, Seq<char>)> {
    match after_keyword(t, 0, "for"@) {
        Some(open) => {
            let word = run_start(t, t.len() as int, CharClass::Word);
            let gap = run_start(t, word, CharClass::Space);
            let goto = gap - "goto"@.len();
            let slash = run_start(t, goto, CharClass::Space);
            let close = slash - 1;
            let pattern = t.subrange(open + 1, close);
            if word < t.len() && gap < word && occurs_at(t, goto, "goto"@) && slash < goto && open
                < close && t[open] == '/' && t[close] == '/' && single_line(pattern) {
                Some((pattern, t.skip(word)))
            } else {
                None
            }
        },
        None => None,
    }
}

/// The target of a line `default goto <word>`.
pub open spec fn default_target(t: Seq<char>) -> Option<Seq<char>> {
    match after_keyword(t, 0, "default"@) {
        Some(goto) => keyword_word(t, goto, "goto"@),
        None => None,
    }
}

/// The expression of a line `eval <expression>`: the rest of the line behind
/// the gap.
pub open spec fn eval_expression(t: Seq<char>) -> Option<Seq<char>> {
    match after_keyword(t, 0, "eval"@) {
        Some(start) => if single_line(t.skip(start)) {
            Some(t.skip(start))
        } else {
            None
        },
        None => None,
    }
}

/// The instruction that a trimmed line states, if it states one.
pub open spec fn parse_instruction(t: Seq<char>) -> Option<InstructionView> {
    if let Some(text) = output_text(t) {
        Some(InstructionView::Output(text))
    } else if let Some(target) = keyword_word(t, 0, "goto"@) {
        Some(InstructionView::Goto(target))
    } else if let Some(parts) = for_parts(t) {
        Some(InstructionView::For(parts.0, parts.1))
    } else if let Some(target) = default_target(t) {
        Some(InstructionView::DefaultGoto(target))
    } else if let Some(name) = keyword_word(t, 0, "save"@) {
        Some(InstructionView::Save(name))
    } else if let Some(expression) = eval_expression(t) {
        Some(InstructionView::Eval(expression))
    } else if t == "input"@ {
        Some(InstructionView::Input)
    } else if t == "exit"@ {
        Some(InstructionView::Exit)
    } else {
        None
    }
}

/// What a line of a script means: nothing if it is blank, an instruction if
/// it states one, and otherwise an error whose message quotes the trimmed line.
pub open spec fn parse_line(line: Seq<char>) -> Result<Option<InstructionView>, Seq<char>> {
    let t = trim(line);
    if t.len() == 0 {
        Ok(None)
    } else {
        match parse_instruction(t) {
            Some(instruction) => Ok(Some(instruction)),
            None => Err(unparsable_prefix() + t),
        }
    }
}

/// The result of parsing a line as a mathematical value.
pub open spec fn line_view(r: Result<Option<Instruction>, String>) -> Result<
    Option<InstructionView>,
    Seq<char>,
> {
    match r {
        Ok(Some(instruction)) => Ok(Some(instruction@)),
        Ok(None) => Ok(None),
        Err(message) => Err(message@),
    }
}

/// Tests whether `v` holds no line feed from `from` up to `to`.
fn no_line_feed(v: &Vec<char>, from: usize, to: usize) -> (b: bool)
    requires
        from <= to <= v.len(),
    ensures
        b == single_line(v@.subrange(from as int, to as int)),
{
    let at = find(v, '\n', from);
    proof {
        lemma_find_char(v@, '\n', from as int);
        let sub = v@.subrange(from as int, to as int);
        if at < to {
            assert(sub[at - from] == '\n');
        } else {
            assert forall|i: int| 0 <= i < sub.len() implies #[trigger] sub[i] != '\n' by {
                assert(sub[i] == v@[from + i]);
            }
        }
    }
    at >= to
}

/// Tests whether `v` is a word from `from` to its end.
fn word_to_end(v: &Vec<char>, from: usize) -> (b: bool)
    requires
        from <= v.len(),
    ensures
        b == is_word(v@.skip(from as int)),
{
    let end = scan(v, from, CharClass::Word);
    proof {
        lemma_run_end(v@, from as int, CharClass::Word);
        let rest = v@.skip(from as int);
        if end == v.len() {
            assert forall|i: int| 0 <= i < rest.len() implies is_word_char(#[trigger] rest[i]) by {
                assert(rest[i] == v@[from + i]);
                assert(CharClass::Word.holds(v@[from + i]));
            }
        } else {
            assert(rest[end - from] == v@[end as int]);
        }
    }
    from < end && end == v.len()
}

/// Looks for `keyword` at `at` and a gap behind it.
fn keyword_gap(t: &Vec<char>, at: usize, keyword: &str) -> (r: Option<usize>)
    ensures
        match r {
            Some(next) => after_keyword(t@, at as int, keyword@) == Some(next as int) && at
                + keyword@.len() < next <= t.len(),
            None => after_keyword(t@, at as int, keyword@) is None,
        },
{
    if !has_at(t, at, keyword) {
        return None;
    }
    let length = keyword.unicode_len();
    assert(at + length <= t.len());
    let gap = at + length;
    let next = scan(t, gap, CharClass::Space);
    if gap < next {
        Some(next)
    } else {
        None
    }
}

/// Reads a line made of `keyword`, a gap and a word.
fn read_keyword_word(t: &Vec<char>, at: usize, keyword: &str) -> (r: Option<String>)
    ensures
        match r {
            Some(word) => keyword_word(t@, at as int, keyword@) == Some(word@),
            None => keyword_word(t@, at as int, keyword@) is None,
        },
{
    match keyword_gap(t, at, keyword) {
        Some(start) => {
            if word_to_end(t, start) {
                let word = string_of(t, start, t.len());
                assert(t@.skip(start as int) =~= t@.subrange(start as int, t.len() as int));
                Some(word)
            } else {
                None
            }
        },
        None => None,
    }
}

/// Reads a line `output "<text>"`.
fn read_output(t: &Vec<char>) -> (r: Option<String>)
    ensures
        match r {
            Some(text) => output_text(t@) == Some(text@),
            None => output_text(t@) is None,
        },
{
    match keyword_gap(t, 0, "output") {
        Some(quote) => {
            if t.len() - quote >= 2 && t[quote] == '"' && t[t.len() - 1] == '"' && no_line_feed(
                t,
                quote + 1,
                t.len() - 1,
            ) {
                Some(string_of(t, quote + 1, t.len() - 1))
            } else {
                None
            }
        },
        None => None,
    }
}

/// Reads a line `for /<pattern>/ goto <word>`.
fn read_for(t: &Vec<char>) -> (r: Option<(String, String)>)
    ensures
        match r {
            Some(parts) => for_parts(t@) == Some((parts.0@, parts.1@)),
            None => for_parts(t@) is None,
        },
{
    let open = match keyword_gap(t, 0, "for") {
        Some(open) => open,
        None => { return None; },
    };
    let word = scan_back(t, t.len(), CharClass::Word);
    let gap = scan_back(t, word, CharClass::Space);
    proof {
        reveal_strlit("goto");
    }
    if !(word < t.len() && gap < word && gap >= 4) {
        return None;
    }
    let goto = gap - 4;
    if !has_at(t, goto, "goto") {
        return None;
    }
    let slash = scan_back(t, goto, CharClass::Space);
    if !(slash < goto && 1 <= slash && open < slash - 1) {
        return None;
    }
    let close = slash - 1;
    if t[open] == '/' && t[close] == '/' && no_line_feed(t, open + 1, close) {
        let pattern = string_of(t, open + 1, close);
        let target = string_of(t, word, t.len());
        assert(t@.skip(word as int) =~= t@.subrange(word as int, t.len() as int));
        Some((pattern, target))
    } else {
        None
    }
}

/// Reads a line `default goto <word>`.
fn read_default(t: &Vec<char>) -> (r: Option<String>)
    ensures
        match r {
            Some(target) => default_target(t@) == Some(target@),
            None => default_target(t@) is None,
        },
{
    match keyword_gap(t, 0, "default") {
        Some(goto) => read_keyword_word(t, goto, "goto"),
        None => None,
    }
}

/// Reads a line `eval <expression>`.
fn read_eval(t: &Vec<char>) -> (r: Option<String>)
    ensures
        match r {
            Some(expression) => eval_expression(t@) == Some(expression@),
            None => eval_expression(t@) is None,
        },
{
    match keyword_gap(t, 0, "eval") {
        Some(start) => {
            if no_line_feed(t, start, t.len()) {
                assert(t@.skip(start as int) =~= t@.subrange(start as int, t.len() as int));
                Some(string_of(t, start, t.len()))
            } else {
                assert(t@.skip(start as int) =~= t@.subrange(start as int, t.len() as int));
                None
            }
        },
        None => None,
    }
}

/// Tests whether `t` is exactly `word`.
fn is_exactly(t: &Vec<char>, word: &str) -> (b: bool)
    ensures
        b == (t@ == word@),
{
    let b = has_at(t, 0, word) && t.len() == word.unicode_len();
    proof {
        if b {
            assert(t@.subrange(0, t.len() as int) =~= t@);
        }
        if t@ == word@ {
            assert(t@.subrange(0, t.len() as int) =~= t@);
        }
    }
    b
}

/// Reads the instruction that a trimmed line states.
pub fn read_instruction(t: &Vec<char>) -> (r: Option<Instruction>)
    ensures
        match r {
            Some(instruction) => parse_instruction(t@) == Some(instruction@),
            None => parse_instruction(t@) is None,
        },
{
    if let Some(text) = read_output(t) {
        return Some(Instruction::Output(text));
    }
    if let Some(target) = read_keyword_word(t, 0, "goto") {
        return Some(Instruction::Goto(target));
    }
    if let Some(parts) = read_for(t) {
        return Some(Instruction::For(parts.0, parts.1));
    }
    if let Some(target) = read_default(t) {
        return Some(Instruction::DefaultGoto(target));
    }
    if let Some(name) = read_keyword_word(t, 0, "save") {
        return Some(Instruction::Save(name));
    }
    if let Some(expression) = read_eval(t) {
        return Some(Instruction::Eval(expression));
    }
    if is_exactly(t, "input") {
        return Some(Instruction::Input);
    }
    if is_exactly(t, "exit") {
        return Some(Instruction::Exit);
    }
    None
}

/// The message for a trimmed line that states no instruction.
pub fn unparsable_message(t: &Vec<char>) -> (message: String)
    ensures
        message@ == unparsable_prefix() + t@,
{
    let mut message = String::from_str("无法解析指令：");
    let rest = string_of(t, 0, t.len());
    assert(t@.subrange(0, t.len() as int) =~= t@);
    message.append(rest.as_str());
    message
}

/// Parses one line of a script. A blank line gives `Ok(None)`, a line in one
/// of the eight forms of the language gives its instruction, and any other
/// line gives an error whose message quotes the line as trimmed.
pub fn parse_str_to_instruction(line: &str) -> (r: Result<Option<Instruction>, String>)
    ensures
        line_view(r) == parse_line(line@),
{
    let chars = chars_of(line);
    let t = trimmed(&chars);
    if t.len() == 0 {
        return Ok(None);
    }
    match read_instruction(&t) {
        Some(instruction) => Ok(Some(instruction)),
        None => Err(unparsable_message(&t)),
    }
}

/// A named block of instructions, the unit between which control moves.
#[derive(Clone, Debug)]
pub struct Module {
    /// The name under which the script holds the module.
    pub name: String,
    /// The instructions, in the order in which they run.
    pub instructions: Vec<Instruction>,
}

/// A module as a mathematical value.
pub struct ModuleView {
    pub name: Seq<char>,
    pub instructions: Seq<InstructionView>,
}

/// The instructions of a vector as mathematical values, in the same order.
pub open spec fn instructions_view(s: Seq<Instruction>) -> Seq<InstructionView> {
    Seq::new(s.len(), |i: int| s[i]@)
}

impl View for Module {
    type V = ModuleView;

    open spec fn view(&self) -> ModuleView {
        ModuleView { name: self.name@, instructions: instructions_view(self.instructions@) }
    }
}

/// The modules of a map as mathematical values, under the same names.
pub open spec fn modules_view(modules: Map<Seq<char>, Module>) -> Map<Seq<char>, ModuleView> {
    Map::new(|name: Seq<char>| modules.contains_key(name), |name: Seq<char>| modules[name]@)
}

/// A whole script: its modules by name. The engine only reads it.
pub struct Script {
    /// The modules, each under its name.
    pub modules: StringHashMap<Module>,
}

impl View for Script {
    type V = Map<Seq<char>, ModuleView>;

    open spec fn view(&self) -> Map<Seq<char>, ModuleView> {
        modules_view(self.modules@)
    }
}

/// Every module of the map stands under its own name.
pub open spec fn named(modules: Map<Seq<char>, ModuleView>) -> bool {
    forall|name: Seq<char>| modules.contains_key(name) ==> (#[trigger] modules[name]).name == name
}

impl Script {
    /// Every module of the script stands under its own name.
    pub open spec fn well_formed(&self) -> bool {
        named(self@)
    }
}

/// Why a text is no script.
#[derive(Debug)]
pub enum ParseError {
    /// A line inside a module states no instruction; holds the message for that line.
    Instruction(String),
    /// A line `}` stands where no module is open.
    UnmatchedClose,
    /// A line that is not blank stands outside every module.
    OutsideModule,
    /// The text ends inside the named module.
    Unterminated(String),
}

/// A parse error as a mathematical value.
pub enum ParseErrorView {
    Instruction(Seq<char>),
    UnmatchedClose,
    OutsideModule,
    Unterminated(Seq<char>),
}

impl View for ParseError {
    type V = ParseErrorView;

    open spec fn view(&self) -> ParseErrorView {
        match self {
            ParseError::Instruction(message) => ParseErrorView::Instruction(message@),
            ParseError::UnmatchedClose => ParseErrorView::UnmatchedClose,
            ParseError::OutsideModule => ParseErrorView::OutsideModule,
            ParseError::Unterminated(name) => ParseErrorView::Unterminated(name@),
        }
    }
}

impl ParseErrorView {
    /// The error in words.
    pub open spec fn message(self) -> Seq<char> {
        match self {
            ParseErrorView::Instruction(message) => "解析错误："@ + message,
            ParseErrorView::UnmatchedClose => "未找到匹配的模块开始"@,
            ParseErrorView::OutsideModule => "未找到模块定义"@,
            ParseErrorView::Unterminated(name) => "模块 `"@ + name + "` 未正确结束"@,
        }
    }
}

impl ParseError {
    /// The error in words, for the operator.
    pub fn message(&self) -> (text: String)
        ensures
            text@ == self@.message(),
    {
        match self {
            ParseError::Instruction(message) => {
                let mut text = String::from_str("解析错误：");
                text.append(message.as_str());
                text
            },
            ParseError::UnmatchedClose => String::from_str("未找到匹配的模块开始"),
            ParseError::OutsideModule => String::from_str("未找到模块定义"),
            ParseError::Unterminated(name) => {
                let mut text = String::from_str("模块 `");
                text.append(name.as_str());
                text.append("` 未正确结束");
                text
            },
        }
    }
}

/// The lines of a text: what stands between its line feeds, before the
/// first and behind the last.
pub open spec fn lines_of(s: Seq<char>) -> Seq<Seq<char>>
    decreases s.len(),
{
    let end = find_char(s, '\n', 0);
    if 0 <= end < s.len() {
        seq![s.take(end)] + lines_of(s.skip(end + 1))
    } else {
        seq![s]
    }
}

/// The name of the module that a trimmed line opens: the line begins with a
/// word and, directly or after white space, an opening brace. What follows
/// the brace is not read.
pub open spec fn module_header(t: Seq<char>) -> Option<Seq<char>> {
    let end = run_end(t, 0, CharClass::Word);
    let brace = run_end(t, end, CharClass::Space);
    if 0 < end && brace < t.len() && t[brace] == '{' {
        Some(t.take(end))
    } else {
        None
    }
}

/// How far a text has been read: the modules that are complete, and the one
/// that is open.
pub struct Progress {
    pub modules: Map<Seq<char>, ModuleView>,
    pub open: Option<ModuleView>,
}

impl Progress {
    /// Nothing read yet.
    pub open spec fn start() -> Progress {
        Progress { modules: Map::empty(), open: None }
    }

    /// The complete modules together with the open one, if there is one. A
    /// module takes the place of an earlier one of the same name.
    pub open spec fn sealed(self) -> Map<Seq<char>, ModuleView> {
        match self.open {
            Some(module) => self.modules.insert(module.name, module),
            None => self.modules,
        }
    }

    /// The progress after one more line.
    pub open spec fn absorb(self, line: Seq<char>) -> Result<Progress, ParseErrorView> {
        let t = trim(line);
        if let Some(name) = module_header(t) {
            Ok(
                Progress {
                    modules: self.sealed(),
                    open: Some(ModuleView { name, instructions: Seq::empty() }),
                },
            )
        } else if t == "}"@ {
            if self.open is Some {
                Ok(Progress { modules: self.sealed(), open: None })
            } else {
                Err(ParseErrorView::UnmatchedClose)
            }
        } else if t.len() == 0 {
            Ok(self)
        } else {
            match self.open {
                Some(module) => match parse_instruction(t) {
                    Some(instruction) => Ok(
                        Progress {
                            modules: self.modules,
                            open: Some(
                                ModuleView {
                                    name: module.name,
                                    instructions: module.instructions.push(instruction),
                                },
                            ),
                        },
                    ),
                    None => Err(ParseErrorView::Instruction(unparsable_prefix() + t)),
                },
                None => Err(ParseErrorView::OutsideModule),
            }
        }
    }

    /// The progress after the given lines, or the error of the first line
    /// that cannot be read.
    pub open spec fn absorb_all(self, lines: Seq<Seq<char>>) -> Result<Progress, ParseErrorView>
        decreases lines.len(),
    {
        if lines.len() == 0 {
            Ok(self)
        } else {
            match self.absorb(lines[0]) {
                Ok(next) => next.absorb_all(lines.drop_first()),
                Err(error) => Err(error),
            }
        }
    }

    /// The script that has been read, if no module is left open.
    pub open spec fn finish(self) -> Result<Map<Seq<char>, ModuleView>, ParseErrorView> {
        match self.open {
            Some(module) => Err(ParseErrorView::Unterminated(module.name)),
            None => Ok(self.modules),
        }
    }
}

/// What a text means as a script: its modules by name, or the first error
/// met in reading it line by line.
pub open spec fn parse_script(source: Seq<char>) -> Result<Map<Seq<char>, ModuleView>, ParseErrorView> {
    match Progress::start().absorb_all(lines_of(source)) {
        Ok(progress) => progress.finish(),
        Err(error) => Err(error),
    }
}

/// Reading lines keeps every complete module under its own name.
proof fn lemma_absorb_keeps_names(progress: Progress, lines: Seq<Seq<char>>)
    requires
        named(progress.modules),
    ensures
        progress.absorb_all(lines) matches Ok(after) ==> named(after.modules),
    decreases lines.len(),
{
    if lines.len() > 0 {
        if let Ok(next) = progress.absorb(lines[0]) {
            lemma_absorb_keeps_names(next, lines.drop_first());
        }
    }
}

/// Every module of a parsed script stands under its own name.
pub proof fn lemma_parsed_modules_are_named(source: Seq<char>)
    ensures
        parse_script(source) matches Ok(modules) ==> named(modules),
{
    lemma_absorb_keeps_names(Progress::start(), lines_of(source));
}

/// The result of parsing a script as a mathematical value.
pub open spec fn script_view(r: Result<Script, ParseError>) -> Result<
    Map<Seq<char>, ModuleView>,
    ParseErrorView,
> {
    match r {
        Ok(script) => Ok(script@),
        Err(error) => Err(error@),
    }
}

/// Reads the name of the module that a trimmed line opens.
fn read_header(t: &Vec<char>) -> (r: Option<String>)
    ensures
        match r {
            Some(name) => module_header(t@) == Some(name@),
            None => module_header(t@) is None,
        },
{
    let end = scan(t, 0, CharClass::Word);
    let brace = scan(t, end, CharClass::Space);
    if 0 < end && brace < t.len() && t[brace] == '{' {
        assert(t@.take(end as int) =~= t@.subrange(0, end as int));
        Some(string_of(t, 0, end))
    } else {
        None
    }
}

/// The lines of a text that starts at the line that ends at `end`.
proof fn lemma_lines_step(s: Seq<char>, from: int, end: int)
    requires
        0 <= from <= s.len(),
        end == find_char(s, '\n', from),
    ensures
        from <= end <= s.len(),
        end < s.len() ==> lines_of(s.skip(from)) == seq![s.subrange(from, end)] + lines_of(
            s.skip(end + 1),
        ),
        end == s.len() ==> lines_of(s.skip(from)) == seq![s.subrange(from, end)],
{
    lemma_find_char(s, '\n', from);
    let rest = s.skip(from);
    assert forall|k: int| 0 <= k < end - from implies #[trigger] rest[k] != '\n' by {
        assert(rest[k] == s[from + k]);
    }
    lemma_find_char_is(rest, '\n', 0, end - from);
    if end < s.len() {
        assert(rest.take(end - from) =~= s.subrange(from, end));
        assert(rest.skip(end - from + 1) =~= s.skip(end + 1));
    } else {
        assert(rest =~= s.subrange(from, end));
    }
}

/// Stores a complete module under its name.
fn seal(modules: &mut StringHashMap<Module>, name: String, instructions: Vec<Instruction>)
    ensures
        modules_view(final(modules)@) == modules_view(old(modules)@).insert(
            name@,
            ModuleView { name: name@, instructions: instructions_view(instructions@) },
        ),
{
    let key = name.clone();
    let module = Module { name, instructions };
    modules.insert(key, module);
    assert(modules_view(modules@) =~= modules_view(old(modules)@).insert(module.name@, module@));
}

/// Parses a script file, given as its text: modules written as a line
/// `name {`, one instruction per line, and a line `}`. Blank lines are
/// skipped. Reading the file is left to the caller. The result
/// holds every module under its name, a later one in place of an earlier one
/// of the same name; the first line that cannot be read, a `}` without a
/// module, a line outside every module or a module left open gives the error.
pub fn parse_script_file(source: &str) -> (r: Result<Script, ParseError>)
    ensures
        script_view(r) == parse_script(source@),
        r matches Ok(script) ==> script.well_formed(),
{
    proof {
        lemma_parsed_modules_are_named(source@);
    }
    let text = chars_of(source);
    let mut modules: StringHashMap<Module> = StringHashMap::new();
    let mut open: Option<String> = None;
    let mut instructions: Vec<Instruction> = Vec::new();
    let ghost mut progress = Progress::start();
    let mut from: usize = 0;
    assert(text@.skip(0) =~= text@);
    assert(modules_view(modules@) =~= Map::<Seq<char>, ModuleView>::empty());
    loop
        invariant_except_break
            Progress::start().absorb_all(lines_of(source@)) == progress.absorb_all(
                lines_of(text@.skip(from as int)),
            ),
        invariant
            text@ == source@,
            from <= text.len(),
            progress.modules == modules_view(modules@),
            match open {
                Some(name) => progress.open == Some(
                    ModuleView { name: name@, instructions: instructions_view(instructions@) },
                ),
                None => progress.open is None,
            },
        ensures
            Progress::start().absorb_all(lines_of(source@)) == Ok::<Progress, ParseErrorView>(
                progress,
            ),
        decreases text.len() - from,
    {
        let end = find(&text, '\n', from);
        let line = slice_of(&text, from, end);
        proof {
            lemma_lines_step(text@, from as int, end as int);
            let lines = lines_of(text@.skip(from as int));
            assert(lines[0] == line@);
            if end < text.len() {
                assert(lines.drop_first() =~= lines_of(text@.skip(end + 1)));
            } else {
                assert(lines.drop_first() =~= Seq::<Seq<char>>::empty());
            }
        }
        let t = trimmed(&line);
        let ghost before = progress;
        if let Some(name) = read_header(&t) {
            if let Some(previous) = open {
                seal(&mut modules, previous, instructions);
            }
            proof {
                progress =
                Progress {
                    modules: before.sealed(),
                    open: Some(ModuleView { name: name@, instructions: Seq::empty() }),
                };
            }
            open = Some(name);
            instructions = Vec::new();
            assert(instructions_view(instructions@) =~= Seq::<InstructionView>::empty());
        } else if is_exactly(&t, "}") {
            match open {
                Some(previous) => {
                    seal(&mut modules, previous, instructions);
                    proof {
                        progress = Progress { modules: before.sealed(), open: None };
                    }
                    open = None;
                    instructions = Vec::new();
                },
                None => {
                    return Err(ParseError::UnmatchedClose);
                },
            }
        } else if t.len() > 0 {
            if open.is_none() {
                return Err(ParseError::OutsideModule);
            }
            match read_instruction(&t) {
                Some(instruction) => {
                    let ghost earlier = instructions_view(instructions@);
                    instructions.push(instruction);
                    assert(instructions_view(instructions@) =~= earlier.push(instruction@));
                    proof {
                        progress =
                        Progress {
                            modules: before.modules,
                            open: Some(
                                ModuleView {
                                    name: before.open->0.name,
                                    instructions: earlier.push(instruction@),
                                },
                            ),
                        };
                    }
                },
                None => {
                    return Err(ParseError::Instruction(unparsable_message(&t)));
                },
            }
        }
        assert(before.absorb(line@) == Ok::<Progress, ParseErrorView>(progress));
        if end >= text.len() {
            assert(progress.absorb_all(Seq::<Seq<char>>::empty()) == Ok::<Progress, ParseErrorView>(
                progress,
            ));
            break;
        }
        from = end + 1;
    }
    match open {
        Some(name) => Err(ParseError::Unterminated(name)),
        None => Ok(Script { modules }),
    }
}

} // verus!
