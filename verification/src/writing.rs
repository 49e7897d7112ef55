//! How instructions are written on a line, and the proof that the parser
//! reads every line so written as the instruction it was written from.

use crate::instruction::{
    after_keyword, for_parts, keyword_word, parse_instruction, parse_line, single_line,
    unparsable_prefix, InstructionView,
};
use crate::text::{
    all_space, is_gap, is_space, is_word, is_word_char, lemma_run_end_is,
    lemma_run_start_appended, lemma_run_start_within, lemma_trim_padded, occurs_at, run_start,
    trim, CharClass,
};
use vstd::prelude::*;

verus! {

impl InstructionView {
    /// Whether the instruction can be written on a line: its names are
    /// words, its texts hold no line feed, and its expression is not empty
    /// and has no white space at its ends.
    pub open spec fn writable(self) -> bool {
        match self {
            InstructionView::Output(text) => single_line(text),
            InstructionView::Goto(target) => is_word(target),
            InstructionView::Input => true,
            InstructionView::For(pattern, target) => single_line(pattern) && is_word(target),
            InstructionView::DefaultGoto(target) => is_word(target),
            InstructionView::Save(name) => is_word(name),
            InstructionView::Eval(expression) => {
                &&& expression.len() > 0
                &&& single_line(expression)
                &&& !is_space(expression.first())
                &&& !is_space(expression.last())
            },
            InstructionView::Exit => true,
        }
    }

    /// The line that states the instruction, with the given gaps between its
    /// parts. Only `for` has three gaps and only `default goto` has two; the
    /// other forms leave the later gaps unused.
    pub open spec fn written(self, first: Seq<char>, second: Seq<char>, third: Seq<char>) -> Seq<
        char,
    > {
        match self {
            InstructionView::Output(text) => "output"@ + first + seq!['"'] + text + seq!['"'],
            InstructionView::Goto(target) => "goto"@ + first + target,
            InstructionView::Input => "input"@,
            InstructionView::For(pattern, target) => "for"@ + first + seq!['/'] + pattern + seq![
                '/',
            ] + second + "goto"@ + third + target,
            InstructionView::DefaultGoto(target) => "default"@ + first + "goto"@ + second + target,
            InstructionView::Save(name) => "save"@ + first + name,
            InstructionView::Eval(expression) => "eval"@ + first + expression,
            InstructionView::Exit => "exit"@,
        }
    }
}

/// What the keywords of the language hold.
pub proof fn lemma_keywords()
    ensures
        "output"@ == seq!['o', 'u', 't', 'p', 'u', 't'],
        "goto"@ == seq!['g', 'o', 't', 'o'],
        "for"@ == seq!['f', 'o', 'r'],
        "default"@ == seq!['d', 'e', 'f', 'a', 'u', 'l', 't'],
        "save"@ == seq!['s', 'a', 'v', 'e'],
        "eval"@ == seq!['e', 'v', 'a', 'l'],
        "input"@ == seq!['i', 'n', 'p', 'u', 't'],
        "exit"@ == seq!['e', 'x', 'i', 't'],
{
    reveal_strlit("output");
    reveal_strlit("goto");
    reveal_strlit("for");
    reveal_strlit("default");
    reveal_strlit("save");
    reveal_strlit("eval");
    reveal_strlit("input");
    reveal_strlit("exit");
    assert("output"@ =~= seq!['o', 'u', 't', 'p', 'u', 't']);
    assert("goto"@ =~= seq!['g', 'o', 't', 'o']);
    assert("for"@ =~= seq!['f', 'o', 'r']);
    assert("default"@ =~= seq!['d', 'e', 'f', 'a', 'u', 'l', 't']);
    assert("save"@ =~= seq!['s', 'a', 'v', 'e']);
    assert("eval"@ =~= seq!['e', 'v', 'a', 'l']);
    assert("input"@ =~= seq!['i', 'n', 'p', 'u', 't']);
    assert("exit"@ =~= seq!['e', 'x', 'i', 't']);
}

/// A line that differs from a keyword in one of the keyword's characters
/// does not begin with that keyword.
pub proof fn lemma_other_keyword(t: Seq<char>, keyword: Seq<char>, at: int)
    requires
        0 <= at < keyword.len(),
        at < t.len() ==> t[at] != keyword[at],
    ensures
        !occurs_at(t, 0, keyword),
        after_keyword(t, 0, keyword) is None,
{
    if occurs_at(t, 0, keyword) {
        assert(t.subrange(0, keyword.len() as int)[at] == t[at]);
    }
}

/// Behind a keyword and a gap, the argument begins where the gap ends.
pub proof fn lemma_after_keyword(
    t: Seq<char>,
    before: Seq<char>,
    keyword: Seq<char>,
    gap: Seq<char>,
    rest: Seq<char>,
)
    requires
        t == before + keyword + gap + rest,
        is_gap(gap),
        rest.len() > 0,
        !is_space(rest[0]),
    ensures
        after_keyword(t, before.len() as int, keyword) == Some(
            (before.len() + keyword.len() + gap.len()) as int,
        ),
        t.skip((before.len() + keyword.len() + gap.len()) as int) == rest,
{
    let at = before.len() as int;
    let from = at + keyword.len();
    let to = from + gap.len();
    assert(t.subrange(at, from) =~= keyword);
    assert forall|k: int| from <= k < to implies CharClass::Space.holds(#[trigger] t[k]) by {
        assert(t[k] == gap[k - from]);
    }
    assert(t[to] == rest[0]);
    lemma_run_end_is(t, from, to, CharClass::Space);
    assert(t.skip(to) =~= rest);
}

/// A line `output "<text>"` states the output of its text.
pub proof fn lemma_output_written(gap: Seq<char>, text: Seq<char>)
    requires
        is_gap(gap),
        single_line(text),
    ensures
        parse_instruction(InstructionView::Output(text).written(gap, gap, gap)) == Some(
            InstructionView::Output(text),
        ),
{
    lemma_keywords();
    let t = InstructionView::Output(text).written(gap, gap, gap);
    let rest = seq!['"'] + text + seq!['"'];
    assert(t =~= Seq::<char>::empty() + "output"@ + gap + rest);
    lemma_after_keyword(t, Seq::empty(), "output"@, gap, rest);
    let quote = gap.len() as int + 6;
    assert(t[quote] == '"');
    assert(t.last() == '"');
    assert(t.subrange(quote + 1, t.len() - 1) =~= text);
}

/// A line made of a keyword, a gap and a word states that word.
pub proof fn lemma_keyword_word_written(
    before: Seq<char>,
    keyword: Seq<char>,
    gap: Seq<char>,
    word: Seq<char>,
)
    requires
        is_gap(gap),
        is_word(word),
    ensures
        keyword_word(before + keyword + gap + word, before.len() as int, keyword) == Some(word),
{
    let t = before + keyword + gap + word;
    assert(is_word_char(word[0]));
    lemma_after_keyword(t, before, keyword, gap, word);
}

/// A line `goto <word>` states a jump to the word.
pub proof fn lemma_goto_written(gap: Seq<char>, target: Seq<char>)
    requires
        is_gap(gap),
        is_word(target),
    ensures
        parse_instruction(InstructionView::Goto(target).written(gap, gap, gap)) == Some(
            InstructionView::Goto(target),
        ),
{
    lemma_keywords();
    let t = InstructionView::Goto(target).written(gap, gap, gap);
    lemma_other_keyword(t, "output"@, 0);
    assert(t =~= Seq::<char>::empty() + "goto"@ + gap + target);
    lemma_keyword_word_written(Seq::empty(), "goto"@, gap, target);
}

/// A line `for /<pattern>/ goto <word>` states the branch on its pattern to
/// the word.
pub proof fn lemma_for_written(
    first: Seq<char>,
    second: Seq<char>,
    third: Seq<char>,
    pattern: Seq<char>,
    target: Seq<char>,
)
    requires
        is_gap(first),
        is_gap(second),
        is_gap(third),
        single_line(pattern),
        is_word(target),
    ensures
        parse_instruction(InstructionView::For(pattern, target).written(first, second, third))
            == Some(InstructionView::For(pattern, target)),
{
    let t = InstructionView::For(pattern, target).written(first, second, third);
    assert(t[0] == 'f' && t.len() > 0) by {
        lemma_keywords();
    }
    assert(after_keyword(t, 0, "output"@) is None && after_keyword(t, 0, "goto"@) is None) by {
        lemma_keywords();
        lemma_other_keyword(t, "output"@, 0);
        lemma_other_keyword(t, "goto"@, 0);
    }
    lemma_for_parts_written(first, second, third, pattern, target);
}

/// The pattern and the word of a line `for /<pattern>/ goto <word>` are
/// those that it was written from.
proof fn lemma_for_parts_written(
    first: Seq<char>,
    second: Seq<char>,
    third: Seq<char>,
    pattern: Seq<char>,
    target: Seq<char>,
)
    requires
        is_gap(first),
        is_gap(second),
        is_gap(third),
        single_line(pattern),
        is_word(target),
    ensures
        for_parts(InstructionView::For(pattern, target).written(first, second, third)) == Some(
            (pattern, target),
        ),
{
    let t = InstructionView::For(pattern, target).written(first, second, third);
    let rest = seq!['/'] + pattern + seq!['/'] + second + "goto"@ + third + target;
    let head = "for"@ + first + seq!['/'] + pattern;
    let open = ("for"@.len() + first.len()) as int;
    assert(rest[0] == '/');
    assert(t =~= Seq::<char>::empty() + "for"@ + first + rest);
    lemma_after_keyword(t, Seq::empty(), "for"@, first, rest);
    assert(t[open] == rest[0]);
    assert(t =~= head + seq!['/'] + second + "goto"@ + third + target);
    lemma_for_tail(t, head, second, third, target);
    assert(t.subrange(open + 1, head.len() as int) =~= pattern);
}

/// The end of a line `for`, read from its end: behind any `head` stand the
/// closing slash, a gap, `goto`, a gap and the word.
proof fn lemma_for_tail(
    t: Seq<char>,
    head: Seq<char>,
    second: Seq<char>,
    third: Seq<char>,
    target: Seq<char>,
)
    requires
        t == head + seq!['/'] + second + "goto"@ + third + target,
        is_gap(second),
        is_gap(third),
        is_word(target),
    ensures
        ({
            let word = run_start(t, t.len() as int, CharClass::Word);
            let gap = run_start(t, word, CharClass::Space);
            let goto = gap - "goto"@.len();
            let slash = run_start(t, goto, CharClass::Space);
            &&& word < t.len()
            &&& gap < word
            &&& occurs_at(t, goto, "goto"@)
            &&& slash < goto
            &&& slash - 1 == head.len()
            &&& t[slash - 1] == '/'
            &&& t.skip(word) == target
        }),
{
    lemma_keywords();
    let closed = head + seq!['/'];
    let spaced = closed + second;
    let named = spaced + "goto"@;
    let ready = named + third;
    assert(t == ready + target);
    assert(is_space(third.last()));
    assert(ready.last() == third.last());
    lemma_run_start_appended(ready, target, CharClass::Word);
    let word = ready.len() as int;
    assert(t.skip(word) =~= target);
    assert(t.take(word) =~= ready);
    lemma_run_start_within(t, word, CharClass::Space);
    assert(named.last() == 'o');
    lemma_run_start_appended(named, third, CharClass::Space);
    let gap = named.len() as int;
    let goto = spaced.len() as int;
    assert(t.subrange(goto, gap) =~= "goto"@);
    assert(t.take(goto) =~= spaced);
    lemma_run_start_within(t, goto, CharClass::Space);
    assert(closed.last() == '/');
    lemma_run_start_appended(closed, second, CharClass::Space);
    assert(t[closed.len() - 1] == '/');
}

/// A line `default goto <word>` states the fallback jump to the word.
pub proof fn lemma_default_written(first: Seq<char>, second: Seq<char>, target: Seq<char>)
    requires
        is_gap(first),
        is_gap(second),
        is_word(target),
    ensures
        parse_instruction(InstructionView::DefaultGoto(target).written(first, second, second))
            == Some(InstructionView::DefaultGoto(target)),
{
    lemma_keywords();
    let t = InstructionView::DefaultGoto(target).written(first, second, second);
    lemma_other_keyword(t, "output"@, 0);
    lemma_other_keyword(t, "goto"@, 0);
    lemma_other_keyword(t, "for"@, 0);
    let rest = "goto"@ + second + target;
    assert(t =~= Seq::<char>::empty() + "default"@ + first + rest);
    lemma_after_keyword(t, Seq::empty(), "default"@, first, rest);
    let before = "default"@ + first;
    assert(t =~= before + "goto"@ + second + target);
    lemma_keyword_word_written(before, "goto"@, second, target);
}

/// A line `save <word>` states the saving of the last input under the word.
pub proof fn lemma_save_written(gap: Seq<char>, name: Seq<char>)
    requires
        is_gap(gap),
        is_word(name),
    ensures
        parse_instruction(InstructionView::Save(name).written(gap, gap, gap)) == Some(
            InstructionView::Save(name),
        ),
{
    lemma_keywords();
    let t = InstructionView::Save(name).written(gap, gap, gap);
    lemma_other_keyword(t, "output"@, 0);
    lemma_other_keyword(t, "goto"@, 0);
    lemma_other_keyword(t, "for"@, 0);
    lemma_other_keyword(t, "default"@, 0);
    assert(t =~= Seq::<char>::empty() + "save"@ + gap + name);
    lemma_keyword_word_written(Seq::empty(), "save"@, gap, name);
}

/// A line `eval <expression>` states the evaluation of the expression.
pub proof fn lemma_eval_written(gap: Seq<char>, expression: Seq<char>)
    requires
        is_gap(gap),
        InstructionView::Eval(expression).writable(),
    ensures
        parse_instruction(InstructionView::Eval(expression).written(gap, gap, gap)) == Some(
            InstructionView::Eval(expression),
        ),
{
    lemma_keywords();
    let t = InstructionView::Eval(expression).written(gap, gap, gap);
    lemma_other_keyword(t, "output"@, 0);
    lemma_other_keyword(t, "goto"@, 0);
    lemma_other_keyword(t, "for"@, 0);
    lemma_other_keyword(t, "default"@, 0);
    lemma_other_keyword(t, "save"@, 0);
    assert(t =~= Seq::<char>::empty() + "eval"@ + gap + expression);
    lemma_after_keyword(t, Seq::empty(), "eval"@, gap, expression);
}

/// The lines `input` and `exit` state the instructions of those names.
pub proof fn lemma_bare_written()
    ensures
        parse_instruction("input"@) == Some(InstructionView::Input),
        parse_instruction("exit"@) == Some(InstructionView::Exit),
{
    lemma_keywords();
    lemma_other_keyword("input"@, "output"@, 0);
    lemma_other_keyword("input"@, "goto"@, 0);
    lemma_other_keyword("input"@, "for"@, 0);
    lemma_other_keyword("input"@, "default"@, 0);
    lemma_other_keyword("input"@, "save"@, 0);
    lemma_other_keyword("input"@, "eval"@, 0);
    lemma_other_keyword("exit"@, "output"@, 0);
    lemma_other_keyword("exit"@, "goto"@, 0);
    lemma_other_keyword("exit"@, "for"@, 0);
    lemma_other_keyword("exit"@, "default"@, 0);
    lemma_other_keyword("exit"@, "save"@, 0);
    lemma_other_keyword("exit"@, "eval"@, 1);
    assert("exit"@[0] != "input"@[0]);
}

/// A written line is the instruction that it was written from: every
/// instruction that can be written, with any gaps between its parts, is read
/// back from its line as it is.
pub proof fn lemma_written_instruction_parses(
    instruction: InstructionView,
    first: Seq<char>,
    second: Seq<char>,
    third: Seq<char>,
)
    requires
        instruction.writable(),
        is_gap(first),
        is_gap(second),
        is_gap(third),
    ensures
        parse_instruction(instruction.written(first, second, third)) == Some(instruction),
{
    match instruction {
        InstructionView::Output(text) => lemma_output_written(first, text),
        InstructionView::Goto(target) => lemma_goto_written(first, target),
        InstructionView::Input => lemma_bare_written(),
        InstructionView::For(pattern, target) => lemma_for_written(
            first,
            second,
            third,
            pattern,
            target,
        ),
        InstructionView::DefaultGoto(target) => lemma_default_written(first, second, target),
        InstructionView::Save(name) => lemma_save_written(first, name),
        InstructionView::Eval(expression) => lemma_eval_written(first, expression),
        InstructionView::Exit => lemma_bare_written(),
    }
}

/// A written line neither begins nor ends with white space.
pub proof fn lemma_written_is_trimmed(
    instruction: InstructionView,
    first: Seq<char>,
    second: Seq<char>,
    third: Seq<char>,
)
    requires
        instruction.writable(),
    ensures
        instruction.written(first, second, third).len() > 0,
        !is_space(instruction.written(first, second, third).first()),
        !is_space(instruction.written(first, second, third).last()),
{
    lemma_keywords();
    let t = instruction.written(first, second, third);
    match instruction {
        InstructionView::Output(text) => {
            assert(t.first() == 'o');
            assert(t.last() == '"');
        },
        InstructionView::Goto(target) => {
            assert(t.first() == 'g');
            assert(t.last() == target.last());
            assert(is_word_char(target[target.len() - 1]));
        },
        InstructionView::Input => {
            assert(t.first() == 'i');
            assert(t.last() == 't');
        },
        InstructionView::For(pattern, target) => {
            assert(t.first() == 'f');
            assert(t.last() == target.last());
            assert(is_word_char(target[target.len() - 1]));
        },
        InstructionView::DefaultGoto(target) => {
            assert(t.first() == 'd');
            assert(t.last() == target.last());
            assert(is_word_char(target[target.len() - 1]));
        },
        InstructionView::Save(name) => {
            assert(t.first() == 's');
            assert(t.last() == name.last());
            assert(is_word_char(name[name.len() - 1]));
        },
        InstructionView::Eval(expression) => {
            assert(t.first() == 'e');
            assert(t.last() == expression.last());
        },
        InstructionView::Exit => {
            assert(t.first() == 'e');
            assert(t.last() == 't');
        },
    }
}

/// Every well-formed line is parsed as the instruction that it states: an
/// instruction written with any gaps between its parts, and with any white
/// space before and after it, is what parsing the line gives.
pub proof fn lemma_well_formed_line_parses(
    instruction: InstructionView,
    first: Seq<char>,
    second: Seq<char>,
    third: Seq<char>,
    before: Seq<char>,
    after: Seq<char>,
)
    requires
        instruction.writable(),
        is_gap(first),
        is_gap(second),
        is_gap(third),
        all_space(before),
        all_space(after),
    ensures
        parse_line(before + instruction.written(first, second, third) + after) == Ok::<
            Option<InstructionView>,
            Seq<char>,
        >(Some(instruction)),
{
    let t = instruction.written(first, second, third);
    lemma_written_is_trimmed(instruction, first, second, third);
    lemma_trim_padded(before, t, after);
    lemma_written_instruction_parses(instruction, first, second, third);
}

/// A line that is not blank and states no instruction is refused with a
/// message that holds the line, as trimmed, word for word: the message is
/// the fixed prefix followed by the line.
pub proof fn lemma_refused_line_is_quoted(line: Seq<char>)
    requires
        trim(line).len() > 0,
        parse_instruction(trim(line)) is None,
    ensures
        parse_line(line) is Err,
        parse_line(line)->Err_0 == unparsable_prefix() + trim(line),
        parse_line(line)->Err_0.subrange(
            unparsable_prefix().len() as int,
            parse_line(line)->Err_0.len() as int,
        ) == trim(line),
{
    let message = unparsable_prefix() + trim(line);
    assert(message.subrange(unparsable_prefix().len() as int, message.len() as int) =~= trim(line));
}

} // verus!
