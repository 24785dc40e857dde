//! The assembly driver: one pass over the lines of a source text.
//!
//! A line that holds the comment marker is a comment. Any other line that holds
//! the label marker defines a label at the current byte counter. Every other line
//! is an instruction: a line with a known mnemonic adds one word to the image and
//! two to the byte counter, a line with any other mnemonic does nothing. Labels
//! are written and read in the same pass, so a branch to a label that is defined
//! further down goes to offset 0.

use crate::emit::lemma_word_of_bit_string;
use crate::encode::{
    add_sub, arith_bits, emitted, jump, jump_bits, lemma_encoded_bits, load, load_bits, store,
    store_bits,
};
use crate::error::AsmError;
use crate::labels::{resolve, LabelTable};
use crate::opcode::{mnemonic_opcode, opcode_of, Opcode};
use crate::text::{
    contains_char, source_lines, split_lines, to_chars, tokens, tokens_of, trim, trimmed_without,
    views_of, without_char,
};
use vstd::prelude::*;

verus! {

/// The character that makes a line a comment.
pub const COMMENT_MARKER: char = ';';

/// The character that makes a line a label definition.
pub const LABEL_MARKER: char = '$';

/// What a source line is.
#[derive(Clone, Copy, Debug, PartialEq, Eq, Structural)]
pub enum LineKind {
    /// The line holds the comment marker.
    Comment,
    /// The line holds the label marker and no comment marker.
    Label,
    /// The line holds neither marker.
    Instruction,
}

/// A line that failed, by its index among the source lines, and why.
#[derive(Clone, Copy, Debug, PartialEq, Eq, Structural)]
pub struct Failure {
    /// The index of the line, counted from 0.
    pub line: usize,
    /// Why the line failed.
    pub error: AsmError,
}

/// What a pass has produced: the image, and the failure that ended the pass early
/// if there was one. The image then holds the words of the lines before it.
pub struct Assembly {
    /// The words of the instruction lines, in source order.
    pub image: Vec<u8>,
    /// The line that ended the pass, if one failed.
    pub failure: Option<Failure>,
}

/// The state of a pass: the byte counter, the labels defined so far, and the image.
pub struct State {
    /// The number of bytes emitted so far.
    pub counter: u32,
    /// The labels defined so far, each with the byte counter at its definition.
    pub labels: Map<Seq<char>, u32>,
    /// The bytes emitted so far.
    pub image: Seq<u8>,
}

/// Where a pass stands after some lines: its state, and the failure that stopped it
/// if one did.
pub struct Progress {
    /// The state after the last line that was handled without failing.
    pub state: State,
    /// The line that stopped the pass, if one failed.
    pub failure: Option<Failure>,
}

/// The kind of a line. The comment marker wins over the label marker.
pub open spec fn line_kind(line: Seq<char>) -> LineKind {
    if line.contains(COMMENT_MARKER) {
        LineKind::Comment
    } else if line.contains(LABEL_MARKER) {
        LineKind::Label
    } else {
        LineKind::Instruction
    }
}

/// The name that a label line defines: the trimmed line without its label markers.
pub open spec fn label_name(line: Seq<char>) -> Seq<char> {
    without_char(trim(line), LABEL_MARKER)
}

/// The bits of the word of an instruction line with tokens `t`, or why it has none;
/// `None` for a line whose mnemonic is unknown.
pub open spec fn instruction_bits(t: Seq<Seq<char>>, labels: Map<Seq<char>, u32>) -> Option<
    Result<Seq<char>, AsmError>,
> {
    match mnemonic_opcode(t[0]) {
        Some(Opcode::Store) => Some(store_bits(t)),
        Some(Opcode::Load) => Some(load_bits(t)),
        Some(Opcode::Add) | Some(Opcode::Subtract) => Some(arith_bits(t)),
        Some(Opcode::JumpEq) | Some(Opcode::JumpLt) | Some(Opcode::JumpGt) | Some(
            Opcode::JumpNe,
        ) => Some(jump_bits(t, labels)),
        None => None,
    }
}

/// The state after `line`, or why the line fails.
pub open spec fn step(st: State, line: Seq<char>) -> Result<State, AsmError> {
    match line_kind(line) {
        LineKind::Comment => Ok(st),
        LineKind::Label => Ok(
            State {
                counter: st.counter,
                labels: st.labels.insert(label_name(line), st.counter),
                image: st.image,
            },
        ),
        LineKind::Instruction => match instruction_bits(tokens_of(line), st.labels) {
            None => Ok(st),
            Some(bits) => match emitted(bits, st.counter) {
                Ok(w) => Ok(
                    State {
                        counter: (st.counter + 2) as u32,
                        labels: st.labels,
                        image: st.image + w,
                    },
                ),
                Err(e) => Err(e),
            },
        },
    }
}

/// The state in which a pass begins.
pub open spec fn initial_state() -> State {
    State { counter: 0, labels: Map::<Seq<char>, u32>::empty(), image: Seq::<u8>::empty() }
}

/// Where a pass over `lines` ends: the lines are taken in order, and the first one
/// that fails stops the pass with the state as it was before that line.
pub open spec fn run(lines: Seq<Seq<char>>) -> Progress
    decreases lines.len(),
{
    if lines.len() == 0 {
        Progress { state: initial_state(), failure: None }
    } else {
        let before = run(lines.drop_last());
        if before.failure is Some {
            before
        } else {
            match step(before.state, lines.last()) {
                Ok(st) => Progress { state: st, failure: None },
                Err(e) => Progress {
                    state: before.state,
                    failure: Some(Failure { line: (lines.len() - 1) as usize, error: e }),
                },
            }
        }
    }
}

/// Whether `name` ends in `.eba`, as the name of a source file does.
pub open spec fn has_source_extension(name: Seq<char>) -> bool {
    name.len() >= 4 && name.skip(name.len() - 4) == seq!['.', 'e', 'b', 'a']
}

/// Whether `name` is the name of a source file.
pub fn is_source_name(name: &str) -> (b: bool)
    ensures
        b == has_source_extension(name@),
{
    let cs = to_chars(name);
    let n = cs.len();
    if n < 4 {
        return false;
    }
    let b = cs[n - 4] == '.' && cs[n - 3] == 'e' && cs[n - 2] == 'b' && cs[n - 1] == 'a';
    proof {
        let tail = name@.skip(n - 4);
        assert(tail.len() == 4);
        assert(tail[0] == cs@[n - 4]);
        assert(tail[1] == cs@[n - 3]);
        assert(tail[2] == cs@[n - 2]);
        assert(tail[3] == cs@[n - 1]);
        if b {
            assert(tail =~= seq!['.', 'e', 'b', 'a']);
        }
    }
    b
}

/// Classifies a line.
pub fn classify(line: &str) -> (k: LineKind)
    ensures
        k == line_kind(line@),
{
    let cs = to_chars(line);
    if contains_char(&cs, COMMENT_MARKER) {
        LineKind::Comment
    } else if contains_char(&cs, LABEL_MARKER) {
        LineKind::Label
    } else {
        LineKind::Instruction
    }
}

/// Handles one source line: skips a comment, records a label at the current byte
/// counter, or encodes an instruction and emits its word. A line that fails
/// changes nothing.
pub fn parse(line: &str, out: &mut Vec<u8>, labels: &mut LabelTable, bytes: &mut u32) -> (r:
    Result<(), AsmError>)
    ensures
        match step(State { counter: *old(bytes), labels: old(labels)@, image: old(out)@ }, line@) {
            Ok(st) => r is Ok && *final(bytes) == st.counter && final(labels)@ == st.labels
                && final(out)@ == st.image,
            Err(e) => r == Err::<(), AsmError>(e) && *final(bytes) == *old(bytes)
                && final(labels)@ == old(labels)@ && final(out)@ == old(out)@,
        },
{
    match classify(line) {
        LineKind::Comment => Ok(()),
        LineKind::Label => {
            let name = trimmed_without(line, LABEL_MARKER);
            labels.define_label(name, *bytes);
            Ok(())
        },
        LineKind::Instruction => {
            let col = tokens(line);
            proof {
                assert(views_of(col@)[0] == col@[0]@);
            }
            match opcode_of(col[0]) {
                Some(Opcode::Store) => store(bytes, line, out),
                Some(Opcode::Load) => load(bytes, line, out),
                Some(Opcode::Add) | Some(Opcode::Subtract) => add_sub(bytes, line, out),
                Some(Opcode::JumpEq) | Some(Opcode::JumpLt) | Some(Opcode::JumpGt) | Some(
                    Opcode::JumpNe,
                ) => jump(bytes, line, out, labels),
                None => Ok(()),
            }
        },
    }
}

/// A line that holds the comment marker changes neither the byte counter nor the
/// labels nor the image.
pub proof fn lemma_comment_line(st: State, line: Seq<char>)
    requires
        line.contains(COMMENT_MARKER),
    ensures
        step(st, line) == Ok::<State, AsmError>(st),
{
}

/// A label line binds its name to the byte counter as it stands, so that the name
/// resolves to it afterwards. The byte counter, the image and what every other
/// name resolves to stay as they were.
pub proof fn lemma_label_line(st: State, line: Seq<char>, other: Seq<char>)
    requires
        line_kind(line) == LineKind::Label,
    ensures
        step(st, line) is Ok,
        step(st, line).unwrap().counter == st.counter,
        step(st, line).unwrap().image == st.image,
        resolve(step(st, line).unwrap().labels, label_name(line)) == st.counter,
        other != label_name(line) ==> resolve(step(st, line).unwrap().labels, other) == resolve(
            st.labels,
            other,
        ),
{
}

/// An instruction line with a known mnemonic that does not fail adds exactly two to
/// the byte counter and exactly one word, two bytes, to the end of the image. The
/// labels stay as they were.
pub proof fn lemma_instruction_line(st: State, line: Seq<char>)
    requires
        line_kind(line) == LineKind::Instruction,
        mnemonic_opcode(tokens_of(line)[0]) is Some,
        step(st, line) is Ok,
    ensures
        step(st, line).unwrap().counter == st.counter + 2,
        step(st, line).unwrap().labels == st.labels,
        step(st, line).unwrap().image.len() == st.image.len() + 2,
        step(st, line).unwrap().image.take(st.image.len() as int) == st.image,
{
    let t = tokens_of(line);
    let bits = instruction_bits(t, st.labels).unwrap();
    let w = emitted(bits, st.counter).unwrap();
    lemma_encoded_bits(t, st.labels);
    lemma_word_of_bit_string(bits.unwrap());
    assert((st.image + w).take(st.image.len() as int) =~= st.image);
}

/// An instruction line with a known mnemonic fails for one of five reasons: an
/// operand is missing, an immediate is no valid number or too wide for its field,
/// the byte counter cannot advance, or the word does not fit in sixteen bits. An
/// `ADD` or `SUB` line never fails for the last of them.
pub proof fn lemma_instruction_failures(st: State, line: Seq<char>)
    requires
        line_kind(line) == LineKind::Instruction,
        step(st, line) is Err,
    ensures
        mnemonic_opcode(tokens_of(line)[0]) is Some,
        step(st, line)->Err_0 != AsmError::InvalidBitString,
        step(st, line)->Err_0 == AsmError::WordOverflow ==> mnemonic_opcode(
            tokens_of(line)[0],
        ) != Some(Opcode::Add) && mnemonic_opcode(tokens_of(line)[0]) != Some(Opcode::Subtract),
        step(st, line)->Err_0 == AsmError::ImmediateTooWide ==> mnemonic_opcode(
            tokens_of(line)[0],
        ) == Some(Opcode::Add) || mnemonic_opcode(tokens_of(line)[0]) == Some(Opcode::Subtract),
{
    let t = tokens_of(line);
    let bits = instruction_bits(t, st.labels).unwrap();
    lemma_encoded_bits(t, st.labels);
    if bits is Ok {
        lemma_word_of_bit_string(bits.unwrap());
    }
}

/// An instruction line whose mnemonic is unknown changes nothing and does not fail.
pub proof fn lemma_unknown_mnemonic(st: State, line: Seq<char>)
    requires
        line_kind(line) == LineKind::Instruction,
        mnemonic_opcode(tokens_of(line)[0]) is None,
    ensures
        step(st, line) == Ok::<State, AsmError>(st),
{
}

/// Throughout a pass the byte counter is the number of bytes in the image, and the
/// image is made of whole words.
pub proof fn lemma_run_counter(lines: Seq<Seq<char>>)
    ensures
        run(lines).state.counter == run(lines).state.image.len(),
        run(lines).state.image.len() % 2 == 0,
    decreases lines.len(),
{
    if lines.len() > 0 {
        lemma_run_counter(lines.drop_last());
        let before = run(lines.drop_last());
        let line = lines.last();
        if before.failure is None && step(before.state, line) is Ok && line_kind(line)
            == LineKind::Instruction && mnemonic_opcode(tokens_of(line)[0]) is Some {
            lemma_instruction_line(before.state, line);
        }
    }
}

/// A pass fails at the first line that fails in the state that the lines before it
/// have led to, and stops in that state.
pub proof fn lemma_run_failure(lines: Seq<Seq<char>>)
    requires
        lines.len() <= usize::MAX,
        run(lines).failure is Some,
    ensures
        ({
            let at = run(lines).failure.unwrap().line as int;
            &&& 0 <= at < lines.len()
            &&& run(lines.take(at)).failure is None
            &&& run(lines.take(at)).state == run(lines).state
            &&& step(run(lines).state, lines[at]) == Err::<State, AsmError>(
                run(lines).failure.unwrap().error,
            )
        }),
    decreases lines.len(),
{
    let before = run(lines.drop_last());
    if before.failure is Some {
        lemma_run_failure(lines.drop_last());
        let at = before.failure.unwrap().line as int;
        assert(lines.drop_last().take(at) =~= lines.take(at));
    } else {
        assert(lines.take(lines.len() - 1) =~= lines.drop_last());
    }
}

/// A pass that has failed stays where it failed, whatever lines follow.
pub proof fn lemma_run_failure_sticks(lines: Seq<Seq<char>>, k: int)
    requires
        0 <= k <= lines.len(),
        run(lines.take(k)).failure is Some,
    ensures
        run(lines) == run(lines.take(k)),
    decreases lines.len() - k,
{
    if k == lines.len() {
        assert(lines.take(k) =~= lines);
    } else {
        assert(lines.drop_last().take(k) =~= lines.take(k));
        lemma_run_failure_sticks(lines.drop_last(), k);
    }
}

/// Assembles a source text in one pass over its lines. The image holds the words of
/// all instruction lines in source order, or, where a line fails, of those before
/// that line.
pub fn assemble(text: &str) -> (r: Assembly)
    ensures
        r.image@ == run(source_lines(text@)).state.image,
        r.failure == run(source_lines(text@)).failure,
{
    let lines = split_lines(text);
    let ghost all = source_lines(text@);
    let mut out: Vec<u8> = Vec::new();
    let mut labels = LabelTable::new();
    let mut bytes: u32 = 0;
    let mut i: usize = 0;
    proof {
        assert(all.take(0) =~= Seq::<Seq<char>>::empty());
    }
    while i < lines.len()
        invariant
            i <= lines.len(),
            all == source_lines(text@),
            views_of(lines@) == all,
            run(all.take(i as int)) == (Progress {
                state: State { counter: bytes, labels: labels@, image: out@ },
                failure: None,
            }),
        decreases lines.len() - i,
    {
        proof {
            assert(all.take(i + 1).drop_last() =~= all.take(i as int));
            assert(all.take(i + 1).last() == lines@[i as int]@);
        }
        match parse(lines[i], &mut out, &mut labels, &mut bytes) {
            Ok(()) => {},
            Err(e) => {
                proof {
                    assert(run(all.take(i + 1)).failure is Some);
                    lemma_run_failure_sticks(all, i + 1);
                }
                return Assembly { image: out, failure: Some(Failure { line: i, error: e }) };
            },
        }
        i += 1;
    }
    proof {
        assert(all.take(i as int) =~= all);
    }
    Assembly { image: out, failure: None }
}

} // verus!
