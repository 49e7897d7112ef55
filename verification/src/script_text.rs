//! How a module is written as the text of a script, and the proof that
//! parsing the text gives back the module.

use crate::instruction::{
    lines_of, module_header, parse_script, single_line, InstructionView, ModuleView,
    ParseErrorView, Progress,
};
use crate::text::{
    is_space, is_word, is_word_char, lemma_find_char_is, lemma_run_end_is, lemma_trim_padded,
    run_end, trim, CharClass,
};
use crate::writing::{lemma_keywords, lemma_written_instruction_parses, lemma_written_is_trimmed};
use vstd::prelude::*;

verus! {

impl InstructionView {
    /// The line that states the instruction with a single space in each gap.
    pub open spec fn line(self) -> Seq<char> {
        self.written(seq![' '], seq![' '], seq![' '])
    }

    /// Whether the line of the instruction can stand in a module without
    /// being taken for the start of another: it is no `eval` whose expression
    /// begins with an opening brace, which reads as a module named `eval`.
    pub open spec fn opens_no_module(self) -> bool {
        match self {
            InstructionView::Eval(expression) => expression.len() > 0 ==> expression[0] != '{',
            _ => true,
        }
    }
}

/// Every instruction can be written and none of the lines opens a module.
pub open spec fn all_writable(instructions: Seq<InstructionView>) -> bool {
    forall|i: int|
        0 <= i < instructions.len() ==> (#[trigger] instructions[i]).writable()
            && instructions[i].opens_no_module()
}

/// The body of a module as text: the line of each instruction with a line
/// feed behind it, and the closing brace.
pub open spec fn body_text(instructions: Seq<InstructionView>) -> Seq<char>
    decreases instructions.len(),
{
    if instructions.len() == 0 {
        "}"@
    } else {
        instructions[0].line() + seq!['\n'] + body_text(instructions.drop_first())
    }
}

/// A module as text: a line with its name and an opening brace, then its body.
pub open spec fn module_text(name: Seq<char>, instructions: Seq<InstructionView>) -> Seq<char> {
    name + " {"@ + seq!['\n'] + body_text(instructions)
}

/// The lines of a text that begins with a line and a line feed are that line
/// and the lines of the rest.
pub proof fn lemma_lines_of_first(line: Seq<char>, rest: Seq<char>)
    requires
        single_line(line),
    ensures
        lines_of(line + seq!['\n'] + rest) == seq![line] + lines_of(rest),
{
    let s = line + seq!['\n'] + rest;
    let end = line.len() as int;
    assert forall|k: int| 0 <= k < end implies #[trigger] s[k] != '\n' by {
        assert(s[k] == line[k]);
    }
    assert(s[end] == '\n');
    lemma_find_char_is(s, '\n', 0, end);
    assert(s.take(end) =~= line);
    assert(s.skip(end + 1) =~= rest);
}

/// A text without a line feed is one line.
pub proof fn lemma_lines_of_last(line: Seq<char>)
    requires
        single_line(line),
    ensures
        lines_of(line) == seq![line],
{
    lemma_find_char_is(line, '\n', 0, line.len() as int);
}

/// The line of an instruction holds no line feed.
proof fn lemma_line_is_single(instruction: InstructionView)
    requires
        instruction.writable(),
    ensures
        single_line(instruction.line()),
{
    lemma_keywords();
    let t = instruction.line();
    match instruction {
        InstructionView::Output(text) => {
            let head = "output"@ + seq![' '] + seq!['"'];
            assert(t =~= head + text + seq!['"']);
            assert forall|i: int| 0 <= i < t.len() implies #[trigger] t[i] != '\n' by {
                if head.len() <= i < head.len() + text.len() {
                    assert(t[i] == text[i - head.len()]);
                }
            }
        },
        InstructionView::Goto(target) => {
            lemma_keyword_line_is_single("goto"@, target);
        },
        InstructionView::Input => {},
        InstructionView::For(pattern, target) => {
            let head = "for"@ + seq![' '] + seq!['/'];
            let tail = seq!['/'] + seq![' '] + "goto"@ + seq![' '];
            assert(t =~= head + pattern + tail + target);
            let a = head.len() + pattern.len();
            let b = a + tail.len();
            assert forall|i: int| 0 <= i < t.len() implies #[trigger] t[i] != '\n' by {
                if i < head.len() {
                    assert(t[i] == head[i]);
                } else if i < a {
                    assert(t[i] == pattern[i - head.len()]);
                } else if i < b {
                    assert(t[i] == tail[i - a]);
                } else {
                    assert(t[i] == target[i - b]);
                    assert(is_word_char(target[i - b]));
                }
            }
        },
        InstructionView::DefaultGoto(target) => {
            let head = "default"@ + seq![' '] + "goto"@;
            assert(t =~= head + seq![' '] + target);
            assert forall|i: int| 0 <= i < head.len() implies is_word_char(#[trigger] head[i])
                || head[i] == ' ' by {}
            assert forall|i: int| 0 <= i < t.len() implies #[trigger] t[i] != '\n' by {
                if i < head.len() {
                    assert(t[i] == head[i]);
                } else if i > head.len() {
                    assert(t[i] == target[i - head.len() - 1]);
                    assert(is_word_char(target[i - head.len() - 1]));
                }
            }
        },
        InstructionView::Save(name) => {
            lemma_keyword_line_is_single("save"@, name);
        },
        InstructionView::Eval(expression) => {
            assert forall|i: int| 0 <= i < t.len() implies #[trigger] t[i] != '\n' by {
                if i >= 5 {
                    assert(t[i] == expression[i - 5]);
                }
            }
        },
        InstructionView::Exit => {},
    }
}

/// A keyword, a space and a word hold no line feed.
proof fn lemma_keyword_line_is_single(keyword: Seq<char>, word: Seq<char>)
    requires
        is_word(keyword),
        is_word(word),
    ensures
        single_line(keyword + seq![' '] + word),
{
    let t = keyword + seq![' '] + word;
    assert forall|i: int| 0 <= i < t.len() implies #[trigger] t[i] != '\n' by {
        if i < keyword.len() {
            assert(is_word_char(keyword[i]));
        } else if i > keyword.len() {
            assert(t[i] == word[i - keyword.len() - 1]);
            assert(is_word_char(word[i - keyword.len() - 1]));
        }
    }
}

/// A line that begins with a word and a space, and goes on with something
/// other than white space or an opening brace, opens no module.
proof fn lemma_no_header(keyword: Seq<char>, rest: Seq<char>)
    requires
        is_word(keyword),
        rest.len() > 0,
        !is_space(rest[0]),
        rest[0] != '{',
    ensures
        module_header(keyword + seq![' '] + rest) is None,
{
    let t = keyword + seq![' '] + rest;
    let end = keyword.len() as int;
    assert forall|k: int| 0 <= k < end implies CharClass::Word.holds(#[trigger] t[k]) by {
        assert(is_word_char(keyword[k]));
    }
    assert(t[end] == ' ');
    lemma_run_end_is(t, 0, end, CharClass::Word);
    assert(t[end + 1] == rest[0]);
    lemma_run_end_is(t, end, end + 1, CharClass::Space);
}

/// A line that is one word opens no module.
proof fn lemma_no_header_bare(word: Seq<char>)
    requires
        is_word(word),
    ensures
        module_header(word) is None,
{
    let end = word.len() as int;
    assert forall|k: int| 0 <= k < end implies CharClass::Word.holds(#[trigger] word[k]) by {
        assert(is_word_char(word[k]));
    }
    lemma_run_end_is(word, 0, end, CharClass::Word);
    assert(run_end(word, end, CharClass::Space) == end);
}

/// The keywords of the language are words.
proof fn lemma_keywords_are_words()
    ensures
        is_word("output"@),
        is_word("goto"@),
        is_word("for"@),
        is_word("default"@),
        is_word("save"@),
        is_word("eval"@),
        is_word("input"@),
        is_word("exit"@),
{
    lemma_keywords();
}

/// The line of an instruction opens no module, unless it is an `eval` whose
/// expression begins with an opening brace.
proof fn lemma_line_opens_no_module(instruction: InstructionView)
    requires
        instruction.writable(),
        instruction.opens_no_module(),
    ensures
        module_header(instruction.line()) is None,
{
    lemma_keywords_are_words();
    let t = instruction.line();
    match instruction {
        InstructionView::Output(text) => {
            let rest = seq!['"'] + text + seq!['"'];
            assert(t =~= "output"@ + seq![' '] + rest);
            lemma_no_header("output"@, rest);
        },
        InstructionView::Goto(target) => {
            assert(is_word_char(target[0]));
            lemma_no_header("goto"@, target);
        },
        InstructionView::Input => {
            lemma_no_header_bare("input"@);
        },
        InstructionView::For(pattern, target) => {
            let rest = seq!['/'] + pattern + seq!['/'] + seq![' '] + "goto"@ + seq![' '] + target;
            assert(t =~= "for"@ + seq![' '] + rest);
            assert(rest[0] == '/');
            lemma_no_header("for"@, rest);
        },
        InstructionView::DefaultGoto(target) => {
            lemma_keywords();
            let rest = "goto"@ + seq![' '] + target;
            assert(t =~= "default"@ + seq![' '] + rest);
            assert(rest[0] == 'g');
            lemma_no_header("default"@, rest);
        },
        InstructionView::Save(name) => {
            assert(is_word_char(name[0]));
            lemma_no_header("save"@, name);
        },
        InstructionView::Eval(expression) => {
            lemma_no_header("eval"@, expression);
        },
        InstructionView::Exit => {
            lemma_no_header_bare("exit"@);
        },
    }
}

/// Inside a module, the line of an instruction adds that instruction to the
/// module.
proof fn lemma_line_absorbed(progress: Progress, instruction: InstructionView)
    requires
        progress.open is Some,
        instruction.writable(),
        instruction.opens_no_module(),
    ensures
        progress.absorb(instruction.line()) == Ok::<Progress, ParseErrorView>(
            Progress {
                modules: progress.modules,
                open: Some(
                    ModuleView {
                        name: progress.open->0.name,
                        instructions: progress.open->0.instructions.push(instruction),
                    },
                ),
            },
        ),
{
    let gap = seq![' '];
    lemma_line_shape(instruction);
    lemma_written_instruction_parses(instruction, gap, gap, gap);
    lemma_line_opens_no_module(instruction);
}

/// The line of an instruction is not blank, has no white space at its ends
/// and is no closing brace.
proof fn lemma_line_shape(instruction: InstructionView)
    requires
        instruction.writable(),
    ensures
        instruction.line().len() > 0,
        trim(instruction.line()) == instruction.line(),
        instruction.line() != "}"@,
{
    let t = instruction.line();
    let gap = seq![' '];
    lemma_written_is_trimmed(instruction, gap, gap, gap);
    lemma_trim_padded(Seq::empty(), t, Seq::empty());
    assert(Seq::<char>::empty() + t + Seq::<char>::empty() =~= t);
    assert(t[0] != '}') by {
        lemma_keywords();
    }
    reveal_strlit("}");
}

/// The line with the name of a module and an opening brace opens that module.
proof fn lemma_header_absorbed(name: Seq<char>)
    requires
        is_word(name),
    ensures
        Progress::start().absorb(name + " {"@) == Ok::<Progress, ParseErrorView>(
            Progress {
                modules: Map::empty(),
                open: Some(ModuleView { name, instructions: Seq::empty() }),
            },
        ),
{
    reveal_strlit(" {");
    let t = name + " {"@;
    let end = name.len() as int;
    assert(is_word_char(name[0]));
    assert(t.first() == name[0]);
    assert(t.last() == '{');
    lemma_trim_padded(Seq::empty(), t, Seq::empty());
    assert(Seq::<char>::empty() + t + Seq::<char>::empty() =~= t);
    assert forall|k: int| 0 <= k < end implies CharClass::Word.holds(#[trigger] t[k]) by {
        assert(is_word_char(name[k]));
    }
    assert(t[end] == ' ');
    lemma_run_end_is(t, 0, end, CharClass::Word);
    assert(t[end + 1] == '{');
    lemma_run_end_is(t, end, end + 1, CharClass::Space);
    assert(t.take(end) =~= name);
}

/// The closing brace seals the module that is open.
proof fn lemma_close_absorbed(progress: Progress)
    requires
        progress.open is Some,
    ensures
        progress.absorb("}"@) == Ok::<Progress, ParseErrorView>(
            Progress { modules: progress.sealed(), open: None },
        ),
{
    reveal_strlit("}");
    let t = "}"@;
    assert(t.first() == '}');
    lemma_trim_padded(Seq::empty(), t, Seq::empty());
    assert(Seq::<char>::empty() + t + Seq::<char>::empty() =~= t);
    assert(run_end(t, 0, CharClass::Word) == 0);
}

/// Reading the body of a module, with the module open and some of its
/// instructions read already, completes the module with the instructions of
/// the body.
proof fn lemma_body_absorbed(
    progress: Progress,
    name: Seq<char>,
    done: Seq<InstructionView>,
    rest: Seq<InstructionView>,
)
    requires
        progress.open == Some(ModuleView { name, instructions: done }),
        all_writable(rest),
    ensures
        progress.absorb_all(lines_of(body_text(rest))) == Ok::<Progress, ParseErrorView>(
            Progress {
                modules: progress.modules.insert(
                    name,
                    ModuleView { name, instructions: done + rest },
                ),
                open: None,
            },
        ),
    decreases rest.len(),
{
    if rest.len() == 0 {
        reveal_strlit("}");
        lemma_lines_of_last("}"@);
        lemma_close_absorbed(progress);
        let closed = Progress { modules: progress.sealed(), open: None };
        let lines = seq!["}"@];
        assert(lines.drop_first() =~= Seq::<Seq<char>>::empty());
        assert(closed.absorb_all(Seq::empty()) == Ok::<Progress, ParseErrorView>(closed));
        assert(done + rest =~= done);
    } else {
        let instruction = rest[0];
        let later = rest.drop_first();
        assert(instruction.writable() && instruction.opens_no_module());
        assert forall|i: int| 0 <= i < later.len() implies (#[trigger] later[i]).writable()
            && later[i].opens_no_module() by {
            assert(later[i] == rest[i + 1]);
        }
        lemma_line_is_single(instruction);
        lemma_lines_of_first(instruction.line(), body_text(later));
        lemma_line_absorbed(progress, instruction);
        let next = Progress {
            modules: progress.modules,
            open: Some(ModuleView { name, instructions: done.push(instruction) }),
        };
        lemma_body_absorbed(next, name, done.push(instruction), later);
        let lines = seq![instruction.line()] + lines_of(body_text(later));
        assert(lines[0] == instruction.line());
        assert(lines.drop_first() =~= lines_of(body_text(later)));
        assert(done.push(instruction) + later =~= done + rest);
    }
}

/// Round trip: the text of one module, written from a name and a sequence of
/// instructions, parses to the script that holds exactly that module, with
/// those instructions in that order.
pub proof fn lemma_module_round_trip(name: Seq<char>, instructions: Seq<InstructionView>)
    requires
        is_word(name),
        all_writable(instructions),
    ensures
        parse_script(module_text(name, instructions)) == Ok::<
            Map<Seq<char>, ModuleView>,
            ParseErrorView,
        >(Map::empty().insert(name, ModuleView { name, instructions })),
{
    reveal_strlit(" {");
    let header = name + " {"@;
    assert forall|i: int| 0 <= i < header.len() implies #[trigger] header[i] != '\n' by {
        if i < name.len() {
            assert(is_word_char(name[i]));
        }
    }
    lemma_lines_of_first(header, body_text(instructions));
    lemma_header_absorbed(name);
    let opened = Progress {
        modules: Map::empty(),
        open: Some(ModuleView { name, instructions: Seq::empty() }),
    };
    lemma_body_absorbed(opened, name, Seq::empty(), instructions);
    let lines = seq![header] + lines_of(body_text(instructions));
    assert(lines[0] == header);
    assert(lines.drop_first() =~= lines_of(body_text(instructions)));
    assert(Seq::<InstructionView>::empty() + instructions =~= instructions);
}

} // verus!
