//! Asking a language model to edit a piece of text, and reading what it
//! says back.
use vstd::prelude::*;

use crate::strs::{
    alnum_of, alphanumeric,
    chars_of, contains, find, find_from, join, joined, push_all, push_str,
    replace, replaced, replace_str, rfind, rfind_in, same, slice, starts_with, string_of, trim,
    trimmed, lemma_find_from, lemma_rfind, find_in, find_str, ends_with, starts, ends, at,
    before_pat, before_str, second_piece, second_str, replace_first, replaced_first, any_ws, is_ws,
    cut_at, cut_len, lines, lines_of, lead, lead_len, ws_words, ws_words_of, views, split_on,
    split_at_each, trimmed_end, trimmed_start, trim_end, trim_start, has_ch, occurs_at, find_at,
};
use crate::chat::change::{after_last_sep, after_last_sep_chars};

verus! {

/// One side of a conversation.
#[derive(Clone, Debug, PartialEq, Eq)]
pub struct Turn {
    /// Whose turn it was. The person asking, or the model answering.
    pub mine: bool,
    pub text: String,
}

impl View for Turn {
    type V = (bool, Seq<char>);

    open spec fn view(&self) -> (bool, Seq<char>) {
        (self.mine, self.text@)
    }
}

/// A conversation, as values.
pub open spec fn turns_view(v: Seq<Turn>) -> Seq<(bool, Seq<char>)> {
    v.map_values(|t: Turn| t@)
}

/// How far along a question is, sent while it is being answered.
///
/// A model that takes twenty seconds and says nothing for nineteen of them is
/// indistinguishable from a model that has hung. These are the numbers the
/// worker already has, passed up so the panel can show that something is
/// happening and roughly how fast.
#[derive(Clone, Copy, Debug, Default, PartialEq)]
pub struct Progress {
    /// Tokens the question came to, known once it has been read.
    pub prompt: usize,
    /// How many of those have been read so far.
    pub read: usize,
    /// Tokens written back so far.
    pub written: usize,
    /// Since the question was sent, which is what somebody waiting is counting.
    pub elapsed: std::time::Duration,
    /// Of that, the part spent writing the tokens counted above.
    pub generating: std::time::Duration,
    /// Whether those tokens are the model thinking rather than answering.
    pub deliberating: bool,
    /// Whether the wait is a tool being run rather than the model writing.
    pub looking: bool,
    /// How many tools have been run for this one question.
    pub steps: u8,
    /// Whether the wait is the weights going in, which is not reading anything.
    pub loading: bool,
    /// Of `prompt`, how many tokens are actually being read this time; the
    /// rest are still in the cache from the last question.
    pub fresh: usize,
    /// Tokens spent deliberating before the answer began, once it has.
    pub thought: usize,
}

/// How long a span of time is, in nanoseconds, as `Duration::as_nanos`
/// gives it.
pub uninterp spec fn nanos_of(d: std::time::Duration) -> int;

/// `Duration::ZERO`. Claimed: it is no time at all, nought nanoseconds long.
#[verifier::external_body]
fn no_time() -> (r: std::time::Duration)
    ensures
        nanos_of(r) == 0,
{
    std::time::Duration::ZERO
}

/// Every count at zero, no time spent, and nothing going on.
pub open spec fn counts_nothing(p: Progress) -> bool {
    &&& p.prompt == 0 && p.read == 0 && p.written == 0 && p.steps == 0 && p.fresh == 0 && p.thought == 0
    &&& nanos_of(p.elapsed) == 0 && nanos_of(p.generating) == 0
    &&& !p.deliberating && !p.looking && !p.loading
}

impl Progress {
    /// Nothing yet: every count at zero, no time spent, nothing going on.
    pub fn none() -> (r: Progress)
        ensures
            counts_nothing(r),
    {
        Progress {
            prompt: 0,
            read: 0,
            written: 0,
            elapsed: no_time(),
            generating: no_time(),
            deliberating: false,
            looking: false,
            steps: 0,
            loading: false,
            fresh: 0,
            thought: 0,
        }
    }
}

/// A request: the text to change, what to do to it, and what it is part of.
///
/// A conversation is the same request with `turns` filled in instead of a
/// passage: one path through the backend, because the part that assembles the
/// context is the part worth having once.
#[derive(Clone, Debug, Default)]
pub struct Ask {
    pub source: String,
    pub request: String,
    /// The conversation so far, ending with what was just asked. Empty for an
    /// edit, which is a question about a passage rather than a conversation.
    pub turns: Vec<Turn>,
    /// The note the passage was taken from, with the passage marked in place.
    pub within: Option<String>,
    /// Which file that note is, so the vault line and the note agree.
    pub file: String,
    /// One line per note in the vault, the same for every request.
    pub vault: String,
    /// What the model may reach for. Empty means it is told about none.
    pub tools: Vec<Tool>,
    /// What has moved in the project since it was written out in `within`.
    pub since: Option<String>,
    /// Whether looking things up is switched off rather than absent.
    pub web_off: bool,
}

/// One thing the model can reach for.
#[derive(Clone, Copy, Debug, PartialEq, Eq)]
pub struct Tool {
    pub name: &'static str,
    /// What it does and when to use it, which is the part that decides
    /// whether the model reaches for it at all.
    pub about: &'static str,
    /// The one argument it takes: its name, and what to put in it.
    pub takes: (&'static str, &'static str),
}

/// What the model is told it is doing when it is being talked to rather than
/// asked to rewrite something.
pub const CHAT_PROMPT: &'static str = "You are talking with somebody about their own \
notes, in the editor they keep them in. Notes are organised into projects; a project \
is a folder of files. You can see a line about every note in the vault, and the whole \
of every file in the project they are looking at, with the lines numbered.

Be direct and brief. This is a side panel, not an essay. No preamble.

To change the project - and only when asked to - write one block, at the top level, \
outside any code fence:

<edit file=\"{note}\" lines=\"12-14\">the text those lines become</edit>
<edit file=\"{note}\" after=\"14\">new lines to go in below line 14</edit>
<write file=\"{note}\">everything the file says from now on</write>
<delete file=\"old.md\"></delete>
<merge into=\"kept.md\" from=\"one.md, two.md\">what the one file says</merge>

Rules for them:

- The file is named without its folder. Leave the name off an edit to mean the file \
they are looking at.
- Only the project they are looking at can be changed. Any note in the vault can be \
read with the read tool; to change one in another project, say they should open it.
- Lines are inclusive and count from one, as in the margin. Write the replacement \
without the numbers.
- Change as few lines as the request needs. To add something, use after: the new \
lines go in below that line and nothing else moves, and after=\"0\" puts them at \
the top. Not the whole file: rewriting a file to make one addition means copying out \
every line you were not asked to touch, and what gets copied wrong is the part nobody \
was looking at.
- Use write to lay down a whole file, whether or not it is there yet. Use merge to \
fold files into one and take the rest away, in a single step - never a write plus \
deletes, because those are accepted separately and half a merge loses a note.
- One block per reply, with a sentence outside it saying what you changed.
- Nothing happens until they accept it. Propose the change; do not announce you have \
made it.
- Asked to change nothing, write no block.";

/// What the list of tools opens with.
pub const TOOLS_HEAD: &'static str = "# Tools\n\nYou have access to the following functions:\n\n<tools>";

/// What the list of tools closes with: the call format baked into the
/// weights, word for word.
pub const TOOLS_END: &'static str = "\n</tools>\n\nIf you choose to call a function ONLY reply in the following format \
         with NO suffix:\n\n<tool_call>\n<function=example_function_name>\n         <parameter=example_parameter_1>\nvalue_1\n</parameter>\n</function>\n</tool_call>\n\n         Several calls at once means several such blocks. Reasoning may come before a call, \
         never after. If no function fits, answer normally and do not mention functions.";

/// What the model is told when looking things up is switched off.
pub const WEB_OFF: &'static str = "\n\nLooking things up on the web is switched off in this app's settings, and \
                 can be switched back on there or by typing /web. If a question needs the web - \
                 the weather, the news, what is on a page - say that it is switched off and that \
                 they can turn it on, rather than only that you cannot help.";

/// One tool, written out the way the model's own chat template writes it.
pub open spec fn tool_line(t: Tool) -> Seq<char> {
    "\n{\"type\": \"function\", \"function\": {\"name\": \""@ + t.name@
        + "\", \"description\": \""@ + t.about@
        + "\", \"parameters\": {\"type\": \"object\", \"properties\": {\""@ + t.takes.0@
        + "\": {\"type\": \"string\", \"description\": \""@ + t.takes.1@
        + "\"}}, \"required\": [\""@ + t.takes.0@ + "\"]}}}"@
}

/// The first `n` tools, written out one after another.
pub open spec fn tool_lines(tools: Seq<Tool>, n: int) -> Seq<char>
    decreases n,
{
    if n <= 0 {
        seq![]
    } else {
        tool_lines(tools, n - 1) + tool_line(tools[n - 1])
    }
}

/// The tools, written out the way the model's own chat template writes them.
pub open spec fn declare_of(tools: Seq<Tool>) -> Seq<char> {
    TOOLS_HEAD@ + tool_lines(tools, tools.len() as int) + TOOLS_END@
}

/// The tools, written out the way the model's own chat template writes them:
/// the template merges the tool block and the system message into one turn,
/// so writing the block out by hand renders exactly what passing tools would
/// have.
pub fn declare(tools: &[Tool]) -> (r: String)
    ensures
        r@ == declare_of(tools@),
{
    let mut out = chars_of(TOOLS_HEAD);
    let ghost head = out@;
    let mut i: usize = 0;
    while i < tools.len()
        invariant
            i <= tools@.len(),
            head == TOOLS_HEAD@,
            out@ == head + tool_lines(tools@, i as int),
        decreases tools.len() - i,
    {
        let t = tools[i];
        let ghost before = out@;
        push_str(&mut out, "\n{\"type\": \"function\", \"function\": {\"name\": \"");
        push_str(&mut out, t.name);
        push_str(&mut out, "\", \"description\": \"");
        push_str(&mut out, t.about);
        push_str(&mut out, "\", \"parameters\": {\"type\": \"object\", \"properties\": {\"");
        push_str(&mut out, t.takes.0);
        push_str(&mut out, "\": {\"type\": \"string\", \"description\": \"");
        push_str(&mut out, t.takes.1);
        push_str(&mut out, "\"}}, \"required\": [\"");
        push_str(&mut out, t.takes.0);
        push_str(&mut out, "\"]}}}");
        assert(out@ =~= before + tool_line(tools@[i as int]));
        i = i + 1;
    }
    push_str(&mut out, TOOLS_END);
    string_of(&out)
}

/// The name the examples are written about: the open note's own name, or
/// `notes.md` when there is none.
pub open spec fn shown_of(file: Seq<char>) -> Seq<char> {
    if after_last_sep(file).len() > 0 {
        after_last_sep(file)
    } else {
        "notes.md"@
    }
}

/// What the model is told it is doing: the editing prompt for a passage;
/// for a conversation, the tools (when there are any) and then what the
/// situation is, with the examples written about the note actually open, and
/// that looking things up is switched off when it is.
pub open spec fn system_of(turns_empty: bool, file: Seq<char>, tools: Seq<Tool>, web_off: bool, editing: Seq<char>) -> Seq<char> {
    if turns_empty {
        editing
    } else {
        let prompt = replace(CHAT_PROMPT@, "{note}"@, shown_of(file));
        let out = if tools.len() == 0 {
            prompt
        } else {
            declare_of(tools) + "\n\n"@ + prompt
        };
        if web_off {
            out + WEB_OFF@
        } else {
            out
        }
    }
}

impl Ask {
    /// Whether this is a conversation rather than an edit.
    pub fn talking(&self) -> (r: bool)
        ensures
            r == (self.turns@.len() > 0),
    {
        self.turns.len() > 0
    }

    /// What the model is told it is doing.
    pub fn system(&self, editing: &str) -> (r: String)
        ensures
            r@ == system_of(self.turns@.len() == 0, self.file@, self.tools@, self.web_off, editing@),
    {
        if !self.talking() {
            return string_of(&chars_of(editing));
        }
        let tail = after_last_sep_chars(&chars_of(self.file.as_str()));
        let shown = if tail.len() > 0 {
            tail
        } else {
            chars_of("notes.md")
        };
        proof {
            reveal_strlit("{note}");
        }
        let prompt = replace_str(&chars_of(CHAT_PROMPT), "{note}", &string_of(&shown));
        let mut out = if self.tools.len() == 0 {
            prompt
        } else {
            let mut d = chars_of(declare(self.tools.as_slice()).as_str());
            push_str(&mut d, "\n\n");
            push_all(&mut d, &prompt);
            d
        };
        if self.web_off {
            push_str(&mut out, WEB_OFF);
        }
        string_of(&out)
    }
}

// ------------------------------------------------------------ what it used

/// A call the model made and what came back.
pub struct Used {
    pub tool: String,
    pub arg: String,
    pub result: String,
}

/// The block that carries a lookup in a reply, with any quote mark in the
/// tool or argument turned into an apostrophe so it cannot end the attribute.
pub open spec fn written_of(tool: Seq<char>, arg: Seq<char>, result: Seq<char>) -> Seq<char> {
    "<used tool=\""@ + replace(tool, "\""@, "'"@) + "\" arg=\""@ + replace(arg, "\""@, "'"@)
        + "\">\n"@ + result + "\n</used>\n\n"@
}

impl Used {
    /// The block that carries it in a reply.
    pub fn written(&self) -> (r: String)
        ensures
            r@ == written_of(self.tool@, self.arg@, self.result@),
    {
        proof {
            reveal_strlit("\"");
        }
        let mut out = chars_of("<used tool=\"");
        let t = replace_str(&chars_of(self.tool.as_str()), "\"", "'");
        push_all(&mut out, &t);
        push_str(&mut out, "\" arg=\"");
        let a = replace_str(&chars_of(self.arg.as_str()), "\"", "'");
        push_all(&mut out, &a);
        push_str(&mut out, "\">\n");
        push_str(&mut out, self.result.as_str());
        push_str(&mut out, "\n</used>\n\n");
        string_of(&out)
    }
}

// ------------------------------------------------------------ tidying up

/// What opens the final channel of a model that answers in channels.
pub open spec fn final_mark() -> Seq<char> {
    "<|channel|>final<|message|>"@
}

/// `s` after the last `p`, or all of it.
pub open spec fn after_last(s: Seq<char>, p: Seq<char>) -> Seq<char> {
    match rfind(s, p) {
        Some(k) => s.skip(k + p.len()),
        None => s,
    }
}

/// A reply with the deliberation taken off, and nothing else: what follows the
/// last final-channel mark, up to any end-of-turn mark, after any closed
/// thinking, trimmed.
pub open spec fn without_thinking_of(text: Seq<char>) -> Seq<char> {
    let a = after_last(trim(text), final_mark());
    let b = before_pat(before_pat(before_pat(a, "<|return|>"@), "<|end|>"@), "<|call|>"@);
    trim(after_last(b, "</think>"@))
}

/// `v` after the last `p`, or all of it.
fn after_last_str(v: &[char], p: &str) -> (r: Vec<char>)
    ensures
        r@ == after_last(v@, p@),
{
    let pv = chars_of(p);
    let len = v.len();
    match rfind_in(v, &pv) {
        Some(k) => {
            proof {
                lemma_rfind(v@, pv@);
            }
            slice(v, k + pv.len(), len)
        },
        None => slice(v, 0, len),
    }
}

/// A reply with the deliberation taken off, and nothing else.
///
/// Reasoning models answer in channels: the deliberation first, the answer
/// last, both in the same stream. Only the last one was asked for.
pub fn without_thinking(text: &str) -> (r: String)
    ensures
        r@ == without_thinking_of(text@),
{
    string_of(&without_thinking_chars(&chars_of(text)))
}

/// A reply with the deliberation taken off.
pub fn without_thinking_chars(text: &[char]) -> (r: Vec<char>)
    ensures
        r@ == without_thinking_of(text@),
{
    let t = trimmed(text);
    let a = after_last_str(&t, "<|channel|>final<|message|>");
    let b = before_str(&before_str(&before_str(&a, "<|return|>"), "<|end|>"), "<|call|>");
    trimmed(&after_last_str(&b, "</think>"))
}

/// The passage out of whatever a model wrapped it in: between `<text>` and
/// `</text>` when it used them, without a code fence around it, and without
/// quotes around the whole of it when there are none inside.
pub open spec fn clean_reply_of(text: Seq<char>) -> Seq<char> {
    let out = without_thinking_of(text);
    let out = match find(out, "<text>"@) {
        Some(st) => before_pat(out.skip(st + "<text>"@.len()), "</text>"@),
        None => out,
    };
    let out = trim(out);
    let out = if starts_with(out, "```"@) {
        let rest = out.skip("```"@.len() as int);
        let rest = match find(rest, seq!['\n']) {
            Some(k) => rest.skip(k + 1),
            None => rest,
        };
        trim(
            if ends_with(rest, "```"@) {
                rest.take(rest.len() - "```"@.len())
            } else {
                rest
            },
        )
    } else {
        out
    };
    let out = if out.len() > 1 && out[0] == '"' && out.last() == '"' && !out.subrange(
        1,
        out.len() - 1,
    ).contains('"') {
        out.subrange(1, out.len() - 1)
    } else {
        out
    };
    trim(out)
}

/// Take the answer out of whatever a model wrapped it in.
pub fn clean_reply(text: &str) -> (r: String)
    ensures
        r@ == clean_reply_of(text@),
{
    let out = without_thinking_chars(&chars_of(text));
    let tv = chars_of("<text>");
    let len = out.len();
    let out = match find_in(&out, &tv) {
        Some(st) => {
            proof {
                lemma_find_from(out@, tv@, 0);
            }
            let o = slice(&out, st + tv.len(), len);
            assert(o@ =~= out@.skip(st + "<text>"@.len()));
            before_str(&o, "</text>")
        },
        None => out,
    };
    let out = trimmed(&out);
    let fence = chars_of("```");
    let out = if crate::strs::at(&out, &fence, 0) {
        let n = out.len();
        let rest = slice(&out, fence.len(), n);
        assert(rest@ =~= out@.skip("```"@.len() as int));
        let nl = vec!['\n'];
        assert(nl@ == seq!['\n']);
        let rn = rest.len();
        let rest = match find_in(&rest, &nl) {
            Some(k) => {
                proof {
                    lemma_find_from(rest@, nl@, 0);
                }
                let r2 = slice(&rest, k + 1, rn);
                assert(r2@ =~= rest@.skip(k + 1));
                r2
            },
            None => rest,
        };
        if fence.len() <= rest.len() && crate::strs::at(&rest, &fence, rest.len() - fence.len()) {
            let r3 = slice(&rest, 0, rest.len() - fence.len());
            assert(r3@ =~= rest@.take(rest@.len() - "```"@.len()));
            trimmed(&r3)
        } else {
            trimmed(&rest)
        }
    } else {
        out
    };
    let n = out.len();
    let out = if n > 1 && out[0] == '"' && out[n - 1] == '"' {
        let inner = slice(&out, 1, n - 1);
        if !has_ch(&inner, '"') {
            assert(!inner@.contains('"')) by {
                if inner@.contains('"') {
                    let j = choose|j: int| 0 <= j < inner@.len() && inner@[j] == '"';
                    assert(crate::strs::has_char(inner@, '"'));
                }
            }
            inner
        } else {
            assert(inner@.contains('"')) by {
                let j = choose|j: int| 0 <= j < inner@.len() && inner@[j] == '"';
                assert(inner@[j] == '"');
            }
            out
        }
    } else {
        out
    };
    string_of(&trimmed(&out))
}

/// What a character becomes in the alphabet the editor can draw: ASCII and
/// letters and numbers of any alphabet are kept, the common punctuation gets
/// its ASCII spelling, and the rest is dropped.
pub open spec fn ascii_of_char(c: char) -> Seq<char> {
    if (c as u32) < 128 || alnum_of(c) {
        seq![c]
    } else if c == '\u{2014}' || c == '\u{2015}' {
        seq!['-', '-']
    } else if c == '\u{2013}' || c == '\u{2012}' || c == '\u{2212}' {
        seq!['-']
    } else if c == '\u{2026}' {
        seq!['.', '.', '.']
    } else if c == '\u{2018}' || c == '\u{2019}' || c == '\u{201b}' {
        seq!['\'']
    } else if c == '\u{201c}' || c == '\u{201d}' || c == '\u{201f}' {
        seq!['"']
    } else if c == '\u{00a0}' || c == '\u{2007}' || c == '\u{202f}' {
        seq![' ']
    } else if c == '\u{2022}' || c == '\u{00b7}' {
        seq!['-']
    } else if c == '\u{00d7}' {
        seq!['x']
    } else {
        seq![]
    }
}

/// Every character of a text as it becomes.
pub open spec fn ascii_chars(s: Seq<char>) -> Seq<char>
    decreases s.len(),
{
    if s.len() == 0 {
        seq![]
    } else {
        ascii_chars(s.drop_last()) + ascii_of_char(s.last())
    }
}

/// A line with its indent kept and its words set one space apart.
pub open spec fn tidy_line(l: Seq<char>) -> Seq<char> {
    l.take(lead(l) as int) + join(ws_words(l), " "@)
}

/// The lines of a text, each tidied.
pub open spec fn tidy_lines(ls: Seq<Seq<char>>) -> Seq<Seq<char>> {
    ls.map_values(|l: Seq<char>| tidy_line(l))
}

/// A reply folded into the alphabet the editor can draw, and tidied line by
/// line past the indent where dropping a character left a space behind.
pub open spec fn to_ascii_of(text: Seq<char>) -> Seq<char> {
    join(tidy_lines(lines(ascii_chars(text))), "\n"@)
}

/// What a character becomes in the alphabet the editor can draw.
fn push_ascii(out: &mut Vec<char>, c: char)
    ensures
        final(out)@ == old(out)@ + ascii_of_char(c),
{
    if (c as u32) < 128 || alphanumeric(c) {
        out.push(c);
    } else if c == '\u{2014}' || c == '\u{2015}' {
        out.push('-');
        out.push('-');
    } else if c == '\u{2013}' || c == '\u{2012}' || c == '\u{2212}' {
        out.push('-');
    } else if c == '\u{2026}' {
        out.push('.');
        out.push('.');
        out.push('.');
    } else if c == '\u{2018}' || c == '\u{2019}' || c == '\u{201b}' {
        out.push('\'');
    } else if c == '\u{201c}' || c == '\u{201d}' || c == '\u{201f}' {
        out.push('"');
    } else if c == '\u{00a0}' || c == '\u{2007}' || c == '\u{202f}' {
        out.push(' ');
    } else if c == '\u{2022}' || c == '\u{00b7}' {
        out.push('-');
    } else if c == '\u{00d7}' {
        out.push('x');
    }
    assert(final(out)@ =~= old(out)@ + ascii_of_char(c));
}

/// Fold a reply into the alphabet the editor can actually draw.
///
/// The font is 5x7 and ASCII. Letters are kept, whatever alphabet they are
/// in; the common punctuation has an obvious ASCII spelling and gets it; the
/// decoration is dropped rather than drawn as a box.
pub fn to_ascii(text: &str) -> (r: String)
    ensures
        r@ == to_ascii_of(text@),
{
    let t = chars_of(text);
    let mut folded: Vec<char> = Vec::new();
    let mut i: usize = 0;
    while i < t.len()
        invariant
            i <= t@.len(),
            folded@ == ascii_chars(t@.take(i as int)),
        decreases t.len() - i,
    {
        assert(t@.take(i + 1).drop_last() =~= t@.take(i as int));
        push_ascii(&mut folded, t[i]);
        i = i + 1;
    }
    assert(t@.take(t@.len() as int) =~= t@);
    let ls = lines_of(&folded);
    let ghost all = lines(folded@);
    let mut tidy: Vec<Vec<char>> = Vec::new();
    let mut k: usize = 0;
    let sp = chars_of(" ");
    while k < ls.len()
        invariant
            k <= ls@.len(),
            ls@.len() == all.len(),
            forall|j: int| 0 <= j < ls@.len() ==> #[trigger] ls@[j]@ == all[j],
            sp@ == " "@,
            views(tidy@) == tidy_lines(all).take(k as int),
        decreases ls.len() - k,
    {
        let l = &ls[k];
        let n = lead_len(l);
        let mut line = slice(l, 0, n);
        let words = ws_words_of(l);
        let joined_words = joined(&words, &sp);
        push_all(&mut line, &joined_words);
        assert(line@ == tidy_line(all[k as int]));
        let ghost before = views(tidy@);
        tidy.push(line);
        assert(views(tidy@) =~= before.push(line@));
        assert(tidy_lines(all).take(k + 1) =~= tidy_lines(all).take(k as int).push(tidy_line(all[k as int])));
        k = k + 1;
    }
    assert(tidy_lines(all).take(ls@.len() as int) =~= tidy_lines(all));
    let nl = chars_of("\n");
    string_of(&joined(&tidy, &nl))
}

// ------------------------------------------------- blocks dressed as calls

/// The kinds of change block, by the word each is written with.
pub open spec fn block_words() -> Seq<Seq<char>> {
    seq!["edit"@, "write"@, "create"@, "delete"@, "merge"@]
}

/// The kinds of change block, by the word each is written with.
fn block_word_list() -> (r: Vec<&'static str>)
    ensures
        r@.len() == 5,
        forall|i: int| 0 <= i < 5 ==> #[trigger] r@[i]@ == block_words()[i],
{
    let r = vec!["edit", "write", "create", "delete", "merge"];
    assert(r@[0]@ == "edit"@);
    r
}

/// A block whose attributes arrived as a call's parameters, for one kind:
/// when `<kind>` and a file parameter are both there and the file parameter
/// names something, everything from `<kind>` on becomes that block, with the
/// content parameter as its body.
pub open spec fn with_parameters_kind(out: Seq<char>, kind: Seq<char>) -> Seq<char> {
    let open = seq!['<'] + kind + seq!['>'];
    if !contains(out, open) || !contains(out, "<parameter=file>"@) {
        out
    } else {
        match second_piece(out, "<parameter=file>"@) {
            Some(piece) => {
                let named = trim(cut_at(piece, seq!['<']));
                if named.len() == 0 {
                    out
                } else {
                    let body = match second_piece(out, "<parameter=content>"@) {
                        Some(r) => trim(before_pat(r, "</parameter>"@)),
                        None => seq![],
                    };
                    before_pat(out, open) + seq!['<'] + kind + " file=\""@ + named + "\">\n"@ + body
                        + "\n</"@ + kind + ">"@
                }
            },
            None => out,
        }
    }
}

/// The same, for the first `n` kinds in turn.
pub open spec fn with_parameters_upto(reply: Seq<char>, n: int) -> Seq<char>
    decreases n,
{
    if n <= 0 {
        reply
    } else {
        with_parameters_kind(with_parameters_upto(reply, n - 1), block_words()[n - 1])
    }
}

/// A block whose attributes arrived as a call's parameters, read for what it
/// plainly means.
pub open spec fn with_parameters_of(reply: Seq<char>) -> Seq<char> {
    with_parameters_upto(reply, 5)
}

/// A block whose attributes arrived as a call's parameters, for one kind.
fn with_parameters_one(out: &[char], kind: &str) -> (r: Vec<char>)
    ensures
        r@ == with_parameters_kind(out@, kind@),
{
    let mut open = vec!['<'];
    push_str(&mut open, kind);
    open.push('>');
    assert(open@ =~= seq!['<'] + kind@ + seq!['>']);
    let pfile = chars_of("<parameter=file>");
    if find_in(out, &open).is_none() || find_in(out, &pfile).is_none() {
        return slice(out, 0, out.len());
    }
    let piece = match second_str(out, "<parameter=file>") {
        Some(p) => p,
        None => return slice(out, 0, out.len()),
    };
    let lt = vec!['<'];
    assert(lt@ == seq!['<']);
    let n = cut_len(&piece, &lt);
    let cut = slice(&piece, 0, n);
    let named = trimmed(&cut);
    if named.len() == 0 {
        return slice(out, 0, out.len());
    }
    let body = match second_str(out, "<parameter=content>") {
        Some(r) => trimmed(&before_str(&r, "</parameter>")),
        None => Vec::new(),
    };
    let before = before_found(out, &open);
    let mut r = before;
    r.push('<');
    push_str(&mut r, kind);
    push_str(&mut r, " file=\"");
    push_all(&mut r, &named);
    push_str(&mut r, "\">\n");
    push_all(&mut r, &body);
    push_str(&mut r, "\n</");
    push_str(&mut r, kind);
    push_str(&mut r, ">");
    assert(r@ =~= before_pat(out@, open@) + seq!['<'] + kind@ + " file=\""@ + named@ + "\">\n"@ + body@
        + "\n</"@ + kind@ + ">"@);
    r
}

/// `v` up to the first `p`, or all of it.
fn before_found(v: &[char], p: &Vec<char>) -> (r: Vec<char>)
    ensures
        r@ == before_pat(v@, p@),
{
    match find_in(v, p) {
        Some(k) => {
            proof {
                lemma_find_from(v@, p@, 0);
            }
            slice(v, 0, k)
        },
        None => slice(v, 0, v.len()),
    }
}

/// A block whose attributes arrived as a call's parameters, read for what it
/// plainly means - a write of the named file with that text - rather than
/// thrown away.
fn with_parameters(reply: &[char]) -> (r: Vec<char>)
    ensures
        r@ == with_parameters_of(reply@),
{
    let kinds = block_word_list();
    let mut out = slice(reply, 0, reply.len());
    let mut i: usize = 0;
    while i < 5
        invariant
            i <= 5,
            kinds@.len() == 5,
            forall|j: int| 0 <= j < 5 ==> #[trigger] kinds@[j]@ == block_words()[j],
            out@ == with_parameters_upto(reply@, i as int),
        decreases 5 - i,
    {
        out = with_parameters_one(&out, kinds[i]);
        i = i + 1;
    }
    out
}

/// One kind's block put right when it wears a call's opening tag: the tag
/// becomes the block's own, and when nothing closes it as itself, the first
/// call wrapper that closes stands in for its close. Whether it was there to
/// put right.
pub open spec fn unfuse_kind(out: Seq<char>, kind: Seq<char>) -> (Seq<char>, bool) {
    let opened = "<function="@ + kind;
    if !contains(out, opened) {
        (out, false)
    } else {
        let o = replace(out, opened, seq!['<'] + kind);
        let shut = "</"@ + kind + ">"@;
        (
            if contains(o, shut) {
                o
            } else if contains(o, "</parameter>"@) {
                replace_first(o, "</parameter>"@, shut)
            } else if contains(o, "</function>"@) {
                replace_first(o, "</function>"@, shut)
            } else if contains(o, "</tool_call>"@) {
                replace_first(o, "</tool_call>"@, shut)
            } else {
                o
            },
            true,
        )
    }
}

/// The same for the first `n` kinds in turn, and whether any was put right.
pub open spec fn unfuse_upto(reply: Seq<char>, n: int) -> (Seq<char>, bool)
    decreases n,
{
    if n <= 0 {
        (reply, false)
    } else {
        let (o, m) = unfuse_upto(reply, n - 1);
        let (o2, m2) = unfuse_kind(o, block_words()[n - 1]);
        (o2, m || m2)
    }
}

/// `s` with every one of these taken out, in order.
pub open spec fn strip_all(s: Seq<char>, pats: Seq<Seq<char>>) -> Seq<char>
    decreases pats.len(),
{
    if pats.len() == 0 {
        s
    } else {
        replace(strip_all(s, pats.drop_last()), pats.last(), seq![])
    }
}

/// The call wrappers left over once a block has been put right.
pub open spec fn wrappers() -> Seq<Seq<char>> {
    seq!["<tool_call>"@, "</tool_call>"@, "</function>"@, "</parameter>"@]
}

/// A change block written as if it were a tool call, put right: only the
/// kinds that exist, read as the block they plainly are, with the call's
/// wrapping taken off; a reply with no such block is left as it is, save
/// that a bare block's parameters are still read.
pub open spec fn unfused_of(reply: Seq<char>) -> Seq<char> {
    if !contains(reply, "<function="@) {
        if contains(reply, "<parameter=file>"@) {
            with_parameters_of(reply)
        } else {
            reply
        }
    } else {
        let (out, mended) = unfuse_upto(reply, 5);
        if !mended {
            reply
        } else {
            strip_all(with_parameters_of(out), wrappers())
        }
    }
}

/// One kind's block put right when it wears a call's opening tag.
fn unfuse_one(out: &[char], kind: &str) -> (r: (Vec<char>, bool))
    requires
        kind@.len() > 0,
    ensures
        (r.0@, r.1) == unfuse_kind(out@, kind@),
{
    let mut opened = chars_of("<function=");
    push_str(&mut opened, kind);
    if find_in(out, &opened).is_none() {
        return (slice(out, 0, out.len()), false);
    }
    let mut to = vec!['<'];
    push_str(&mut to, kind);
    assert(to@ =~= seq!['<'] + kind@);
    assert(opened@ == "<function="@ + kind@);
    proof {
        reveal_strlit("<function=");
    }
    let o = crate::strs::replaced(out, &opened, &to);
    let mut shut = chars_of("</");
    push_str(&mut shut, kind);
    push_str(&mut shut, ">");
    let ss = string_of(&shut);
    let o2 = if find_in(&o, &shut).is_some() {
        o
    } else if find_str(&o, "</parameter>", 0).is_some() {
        replaced_first(&o, "</parameter>", ss.as_str())
    } else if find_str(&o, "</function>", 0).is_some() {
        replaced_first(&o, "</function>", ss.as_str())
    } else if find_str(&o, "</tool_call>", 0).is_some() {
        replaced_first(&o, "</tool_call>", ss.as_str())
    } else {
        o
    };
    (o2, true)
}

/// Put right a change block written as if it were a tool call.
///
/// The two are told apart by nothing but their tags, and a model handed both
/// in one system prompt sometimes fuses them: its own write block wearing a
/// call's opening tag. The intent is not in doubt - the closing tag says
/// which block was meant - so it is read as the block it plainly is.
pub fn unfused(reply: &str) -> (r: String)
    ensures
        r@ == unfused_of(reply@),
{
    string_of(&unfused_chars(&chars_of(reply)))
}

/// Put right a change block written as if it were a tool call.
pub fn unfused_chars(reply: &[char]) -> (r: Vec<char>)
    ensures
        r@ == unfused_of(reply@),
{
    if find_str(reply, "<function=", 0).is_none() {
        if find_str(reply, "<parameter=file>", 0).is_some() {
            return with_parameters(reply);
        }
        return slice(reply, 0, reply.len());
    }
    let kinds = block_word_list();
    let mut out = slice(reply, 0, reply.len());
    let mut mended = false;
    let mut i: usize = 0;
    while i < 5
        invariant
            i <= 5,
            kinds@.len() == 5,
            forall|j: int| 0 <= j < 5 ==> #[trigger] kinds@[j]@ == block_words()[j],
            (out@, mended) == unfuse_upto(reply@, i as int),
        decreases 5 - i,
    {
        proof {
            reveal_strlit("edit");
            reveal_strlit("write");
            reveal_strlit("create");
            reveal_strlit("delete");
            reveal_strlit("merge");
            assert(block_words()[i as int].len() > 0);
        }
        let (o, m) = unfuse_one(&out, kinds[i]);
        out = o;
        mended = mended || m;
        i = i + 1;
    }
    if !mended {
        return slice(reply, 0, reply.len());
    }
    let mut out = with_parameters(&out);
    let ws = wrapper_list();
    let ghost base = out@;
    let mut k: usize = 0;
    while k < 4
        invariant
            k <= 4,
            ws@.len() == 4,
            forall|j: int| 0 <= j < 4 ==> #[trigger] ws@[j]@ == wrappers()[j],
            out@ == strip_all(base, wrappers().take(k as int)),
        decreases 4 - k,
    {
        proof {
            reveal_strlit("<tool_call>");
            reveal_strlit("</tool_call>");
            reveal_strlit("</function>");
            reveal_strlit("</parameter>");
            assert(wrappers()[k as int].len() > 0);
        }
        assert(wrappers().take(k + 1).drop_last() =~= wrappers().take(k as int));
        assert(wrappers().take(k + 1).last() == wrappers()[k as int]);
        proof {
            reveal_strlit("");
        }
        assert(""@ =~= Seq::<char>::empty());
        out = replace_str(&out, ws[k], "");
        k = k + 1;
    }
    assert(wrappers().take(4) =~= wrappers());
    out
}

/// The call wrappers left over once a block has been put right.
fn wrapper_list() -> (r: Vec<&'static str>)
    ensures
        r@.len() == 4,
        forall|i: int| 0 <= i < 4 ==> #[trigger] r@[i]@ == wrappers()[i],
{
    vec!["<tool_call>", "</tool_call>", "</function>", "</parameter>"]
}

// ---------------------------------------------------------- the machinery

/// What a model writes to begin reaching for a tool, in the spellings seen.
pub open spec fn openers() -> Seq<Seq<char>> {
    seq!["<tool_call"@, "<function="@, "<|tool_call_start|>"@, "[TOOL_CALL]"@, "<read"@]
}

/// And what ends one.
pub open spec fn closers() -> Seq<Seq<char>> {
    seq!["</tool_call>"@, "</function>"@, "<|tool_call_end|>"@, "[/TOOL_CALL]"@, "</read>"@]
}

/// Leftovers: a closing tag whose opening never came, and the parameter
/// wrapping that sometimes outlives a call.
pub open spec fn strays() -> Seq<Seq<char>> {
    seq![
        "</read>"@,
        "</tool_call>"@,
        "</function>"@,
        "</parameter>"@,
        "<|tool_call_end|>"@,
        "<|tool_call_start|>"@,
        "[/TOOL_CALL]"@,
        "[TOOL_CALL]"@,
    ]
}

/// The earliest place, at `at` or after, where one of the first `n` patterns
/// stands, and which: the first of them on a tie.
pub open spec fn first_among(text: Seq<char>, at: int, pats: Seq<Seq<char>>, n: int) -> Option<
    (int, Seq<char>),
>
    decreases n,
{
    if n <= 0 {
        None
    } else {
        let r = first_among(text, at, pats, n - 1);
        match find_from(text, pats[n - 1], at) {
            None => r,
            Some(i) => match r {
                None => Some((i, pats[n - 1])),
                Some((j, _)) => if i < j {
                    Some((i, pats[n - 1]))
                } else {
                    r
                },
            },
        }
    }
}

/// The earliest end, at `from` or after, of one of the first `n` patterns.
pub open spec fn first_end(text: Seq<char>, from: int, pats: Seq<Seq<char>>, n: int) -> Option<int>
    decreases n,
{
    if n <= 0 {
        None
    } else {
        let r = first_end(text, from, pats, n - 1);
        match find_from(text, pats[n - 1], from) {
            None => r,
            Some(i) => match r {
                None => Some(i + pats[n - 1].len()),
                Some(e) => if i + pats[n - 1].len() < e {
                    Some(i + pats[n - 1].len())
                } else {
                    r
                },
            },
        }
    }
}

/// The text from `at` on with every call taken out, from its opening to the
/// end of the first closing after it; a call nothing closes takes the rest
/// with it.
pub open spec fn machinery_from(text: Seq<char>, at: int) -> Seq<char>
    decreases text.len() - at,
{
    if at < 0 || at > text.len() {
        seq![]
    } else {
        match first_among(text, at, openers(), 5) {
            None => text.skip(at),
            Some((i, o)) => match first_end(text, i + o.len(), closers(), 5) {
                None => text.subrange(at, i),
                Some(e) => if at < e <= text.len() {
                    text.subrange(at, i) + machinery_from(text, e)
                } else {
                    text.subrange(at, i)
                },
            },
        }
    }
}

/// A reply with the calling-out taken out of it: after putting right any
/// change block dressed as a call, every call goes, then every leftover
/// piece of wrapping, and what is left is trimmed.
pub open spec fn without_machinery_of(said: Seq<char>) -> Seq<char> {
    trim(strip_all(machinery_from(unfused_of(said), 0), strays()))
}

/// A list of patterns.
fn patterns(which: u8) -> (r: Vec<&'static str>)
    ensures
        which == 0 ==> r@.len() == 5 && forall|i: int| 0 <= i < 5 ==> #[trigger] r@[i]@ == openers()[i],
        which == 1 ==> r@.len() == 5 && forall|i: int| 0 <= i < 5 ==> #[trigger] r@[i]@ == closers()[i],
        which >= 2 ==> r@.len() == 8 && forall|i: int| 0 <= i < 8 ==> #[trigger] r@[i]@ == strays()[i],
{
    if which == 0 {
        vec!["<tool_call", "<function=", "<|tool_call_start|>", "[TOOL_CALL]", "<read"]
    } else if which == 1 {
        vec!["</tool_call>", "</function>", "<|tool_call_end|>", "[/TOOL_CALL]", "</read>"]
    } else {
        vec![
            "</read>",
            "</tool_call>",
            "</function>",
            "</parameter>",
            "<|tool_call_end|>",
            "<|tool_call_start|>",
            "[/TOOL_CALL]",
            "[TOOL_CALL]",
        ]
    }
}

/// The earliest place, at `at` or after, where one of the patterns stands.
fn earliest(text: &[char], at: usize, pats: &Vec<&'static str>, n: usize, spec_pats: Ghost<Seq<Seq<char>>>) -> (r: Option<(usize, usize)>)
    requires
        n <= pats@.len(),
        n <= spec_pats@.len(),
        forall|i: int| 0 <= i < n ==> #[trigger] pats@[i]@ == spec_pats@[i],
    ensures
        r matches Some((i, k)) ==> k < n && first_among(text@, at as int, spec_pats@, n as int) == Some((i as int, spec_pats@[k as int])),
        r is None ==> first_among(text@, at as int, spec_pats@, n as int) is None,
{
    let mut best: Option<(usize, usize)> = None;
    let mut k: usize = 0;
    while k < n
        invariant
            k <= n,
            n <= pats@.len(),
            n <= spec_pats@.len(),
            forall|i: int| 0 <= i < n ==> #[trigger] pats@[i]@ == spec_pats@[i],
            best matches Some((i, j)) ==> j < k && first_among(text@, at as int, spec_pats@, k as int) == Some((i as int, spec_pats@[j as int])),
            best is None ==> first_among(text@, at as int, spec_pats@, k as int) is None,
        decreases n - k,
    {
        assert(pats@[k as int]@ == spec_pats@[k as int]);
        match find_str(text, pats[k], at) {
            None => {},
            Some(i) => match best {
                None => {
                    best = Some((i, k));
                },
                Some((j, _)) => {
                    if i < j {
                        best = Some((i, k));
                    }
                },
            },
        }
        k = k + 1;
    }
    best
}

/// The earliest end, at `from` or after, of one of the patterns.
fn earliest_end(text: &[char], from: usize, pats: &Vec<&'static str>, n: usize, spec_pats: Ghost<Seq<Seq<char>>>) -> (r: Option<usize>)
    requires
        n <= pats@.len(),
        n <= spec_pats@.len(),
        forall|i: int| 0 <= i < n ==> #[trigger] pats@[i]@ == spec_pats@[i],
    ensures
        r matches Some(e) ==> first_end(text@, from as int, spec_pats@, n as int) == Some(e as int) && e <= text@.len(),
        r is None ==> first_end(text@, from as int, spec_pats@, n as int) is None,
{
    let mut best: Option<usize> = None;
    let len = text.len();
    let mut k: usize = 0;
    while k < n
        invariant
            k <= n,
            len == text@.len(),
            n <= pats@.len(),
            n <= spec_pats@.len(),
            forall|i: int| 0 <= i < n ==> #[trigger] pats@[i]@ == spec_pats@[i],
            best matches Some(e) ==> first_end(text@, from as int, spec_pats@, k as int) == Some(e as int) && e <= text@.len(),
            best is None ==> first_end(text@, from as int, spec_pats@, k as int) is None,
        decreases n - k,
    {
        assert(pats@[k as int]@ == spec_pats@[k as int]);
        let pv = chars_of(pats[k]);
        match find_at(text, &pv, from) {
            None => {},
            Some(i) => {
                proof {
                    lemma_find_from(text@, pv@, from as int);
                }
                let e = i + pv.len();
                match best {
                    None => {
                        best = Some(e);
                    },
                    Some(b) => {
                        if e < b {
                            best = Some(e);
                        }
                    },
                }
            },
        }
        k = k + 1;
    }
    best
}

/// A reply with the calling-out taken out of it.
///
/// What the model writes when it reaches for a tool is a block of tags, and
/// nobody asked to see that. Anything said before the call is kept, and an
/// unterminated block takes the rest with it, since a block half written is
/// a block still being written.
pub fn without_machinery(said: &str) -> (r: String)
    ensures
        r@ == without_machinery_of(said@),
{
    let text = unfused_chars(&chars_of(said));
    let len = text.len();
    let opens = patterns(0);
    let closes = patterns(1);
    let mut out: Vec<char> = Vec::new();
    let mut at: usize = 0;
    loop
        invariant_except_break
            machinery_from(text@, 0) == out@ + machinery_from(text@, at as int),
        invariant
            at <= len,
            len == text@.len(),
            opens@.len() == 5,
            closes@.len() == 5,
            forall|i: int| 0 <= i < 5 ==> #[trigger] opens@[i]@ == openers()[i],
            forall|i: int| 0 <= i < 5 ==> #[trigger] closes@[i]@ == closers()[i],
        ensures
            machinery_from(text@, 0) == out@,
        decreases len - at,
    {
        let ghost before = out@;
        match earliest(&text, at, &opens, 5, Ghost(openers())) {
            None => {
                let rest = slice(&text, at, len);
                push_all(&mut out, &rest);
                assert(rest@ =~= text@.skip(at as int));
                break;
            },
            Some((i, k)) => {
                let o = chars_of(opens[k]);
                proof {
                    lemma_first_among(text@, at as int, openers(), 5);
                }
                let part = slice(&text, at, i);
                push_all(&mut out, &part);
                match earliest_end(&text, i + o.len(), &closes, 5, Ghost(closers())) {
                    None => {
                        assert(out@ =~= before + text@.subrange(at as int, i as int));
                        break;
                    },
                    Some(e) => {
                        if at < e && e <= len {
                            let ghost rest = machinery_from(text@, e as int);
                            assert(out@ + rest =~= before + (text@.subrange(at as int, i as int) + rest));
                            at = e;
                        } else {
                            assert(out@ =~= before + text@.subrange(at as int, i as int));
                            break;
                        }
                    },
                }
            },
        }
    }
    let strays_list = patterns(2);
    let ghost base = out@;
    let mut k: usize = 0;
    while k < 8
        invariant
            k <= 8,
            strays_list@.len() == 8,
            forall|j: int| 0 <= j < 8 ==> #[trigger] strays_list@[j]@ == strays()[j],
            out@ == strip_all(base, strays().take(k as int)),
        decreases 8 - k,
    {
        proof {
            reveal_strlit("</read>");
            reveal_strlit("</tool_call>");
            reveal_strlit("</function>");
            reveal_strlit("</parameter>");
            reveal_strlit("<|tool_call_end|>");
            reveal_strlit("<|tool_call_start|>");
            reveal_strlit("[/TOOL_CALL]");
            reveal_strlit("[TOOL_CALL]");
            reveal_strlit("");
            assert(strays()[k as int].len() > 0);
        }
        assert(strays().take(k + 1).drop_last() =~= strays().take(k as int));
        assert(strays().take(k + 1).last() == strays()[k as int]);
        assert(""@ =~= Seq::<char>::empty());
        out = replace_str(&out, strays_list[k], "");
        k = k + 1;
    }
    assert(strays().take(8) =~= strays());
    string_of(&trimmed(&out))
}

pub proof fn lemma_first_among(text: Seq<char>, at: int, pats: Seq<Seq<char>>, n: int)
    requires
        0 <= at,
    ensures
        first_among(text, at, pats, n) matches Some((i, o)) ==> at <= i && occurs_at(text, o, i),
    decreases n,
{
    if n > 0 {
        lemma_first_among(text, at, pats, n - 1);
        lemma_find_from(text, pats[n - 1], at);
    }
}

// -------------------------------------------------------------- the calls

/// One call, from the text just after its `<function=`: its name - up to the
/// `>`, trimmed, and nothing if empty or spaced - and its argument, the first
/// parameter's value within this call, trimmed, or nothing.
pub open spec fn one_call_of(after: Seq<char>) -> Option<(Seq<char>, Seq<char>)> {
    let name = trim(cut_at(after, seq!['>']));
    if name.len() == 0 || exists|i: int| 0 <= i < name.len() && is_ws(#[trigger] name[i]) {
        None
    } else {
        let this = before_pat(after, "</function>"@);
        let value = match second_piece(this, "<parameter="@) {
            Some(p) => match find(p, seq!['>']) {
                Some(k) => trim(before_pat(p.skip(k + 1), "</parameter>"@)),
                None => seq![],
            },
            None => seq![],
        };
        Some((name, value))
    }
}

/// The calls the first `n` pieces make.
pub open spec fn some_calls(pieces: Seq<Seq<char>>, n: int) -> Seq<(Seq<char>, Seq<char>)>
    decreases n,
{
    if n <= 0 {
        seq![]
    } else {
        let r = some_calls(pieces, n - 1);
        match one_call_of(pieces[n - 1]) {
            Some(c) => r.push(c),
            None => r,
        }
    }
}

/// The name a read asks for when it is written as a call's parameter, up to
/// the next tag.
pub open spec fn param_name(tail: Seq<char>) -> Option<Seq<char>> {
    match second_piece(tail, "<parameter="@) {
        Some(p) => match find(p, seq!['>']) {
            Some(k) => {
                let v = trim(cut_at(p.skip(k + 1), seq!['<']));
                if v.len() > 0 {
                    Some(v)
                } else {
                    None
                }
            },
            None => None,
        },
        None => None,
    }
}

/// The reads asked for from `at` on, in this application's own block shape:
/// `<read file="...">`, or `<read>` with the name as a call's parameter.
/// `<reader>` or `<ready` is a word, not a read.
pub open spec fn reads_from(text: Seq<char>, at: int) -> Seq<(Seq<char>, Seq<char>)>
    decreases text.len() - at,
{
    if at < 0 || at > text.len() {
        seq![]
    } else {
        match find_from(text, "<read"@, at) {
            None => seq![],
            Some(s) => {
                let a = s + "<read"@.len();
                match find_from(text, seq!['>'], a) {
                    None => seq![],
                    Some(g) => {
                        proof {
                            lemma_find_from(text, "<read"@, at);
                            lemma_find_from(text, seq!['>'], a);
                        }
                        let head = text.subrange(a, g);
                        let rest = reads_from(text, g + 1);
                        if head.len() > 0 && !is_ws(head[0]) {
                            rest
                        } else {
                            let quoted = match second_piece(head, seq!['"']) {
                                Some(q) => if trim(q).len() > 0 {
                                    Some(trim(q))
                                } else {
                                    None
                                },
                                None => None,
                            };
                            let named = match quoted {
                                Some(q) => Some(q),
                                None => param_name(text.skip(g + 1)),
                            };
                            match named {
                                Some(n) => seq![("read"@, n)] + rest,
                                None => rest,
                            }
                        }
                    },
                }
            },
        }
    }
}

/// Every call a reply is making, in the order it made them: each
/// `<function=` call, then the reads asked for as blocks.
pub open spec fn calls_of(reply: Seq<char>) -> Seq<(Seq<char>, Seq<char>)> {
    let pieces = split_on(reply, "<function="@).drop_first();
    some_calls(pieces, pieces.len() as int) + reads_from(reply, 0)
}

/// Calls, as values.
pub open spec fn calls_view(v: Seq<(String, String)>) -> Seq<(Seq<char>, Seq<char>)> {
    v.map_values(|c: (String, String)| (c.0@, c.1@))
}

/// One call, from the text just after its `<function=`.
fn one_call(after: &[char]) -> (r: Option<(Vec<char>, Vec<char>)>)
    ensures
        r matches Some((n, v)) ==> one_call_of(after@) == Some((n@, v@)),
        r is None ==> one_call_of(after@) is None,
{
    let gt = vec!['>'];
    assert(gt@ == seq!['>']);
    let n = cut_len(after, &gt);
    let cut = slice(after, 0, n);
    let name = trimmed(&cut);
    if name.len() == 0 || any_ws(&name) {
        return None;
    }
    let this = before_str(after, "</function>");
    let value = match second_str(&this, "<parameter=") {
        Some(p) => {
            let pl = p.len();
            match find_in(&p, &gt) {
                Some(k) => {
                    proof {
                        lemma_find_from(p@, gt@, 0);
                    }
                    let v = slice(&p, k + 1, pl);
                    assert(v@ =~= p@.skip(k + 1));
                    trimmed(&before_str(&v, "</parameter>"))
                },
                None => Vec::new(),
            }
        },
        None => Vec::new(),
    };
    Some((name, value))
}

/// The name a read asks for when it is written as a call's parameter.
fn param_named(tail: &[char]) -> (r: Option<Vec<char>>)
    ensures
        r matches Some(v) ==> param_name(tail@) == Some(v@),
        r is None ==> param_name(tail@) is None,
{
    let gt = vec!['>'];
    assert(gt@ == seq!['>']);
    let lt = vec!['<'];
    assert(lt@ == seq!['<']);
    match second_str(tail, "<parameter=") {
        Some(p) => {
            let pl = p.len();
            match find_in(&p, &gt) {
                Some(k) => {
                    proof {
                        lemma_find_from(p@, gt@, 0);
                    }
                    let v = slice(&p, k + 1, pl);
                    assert(v@ =~= p@.skip(k + 1));
                    let n = cut_len(&v, &lt);
                    let c = slice(&v, 0, n);
                    let t = trimmed(&c);
                    if t.len() > 0 {
                        Some(t)
                    } else {
                        None
                    }
                },
                None => None,
            }
        },
        None => None,
    }
}

/// Reading a note, asked for the way this application's own blocks are
/// written.
fn asked_to_read(text: &[char]) -> (r: Vec<(String, String)>)
    ensures
        calls_view(r@) == reads_from(text@, 0),
{
    let len = text.len();
    let open = chars_of("<read");
    let gt = vec!['>'];
    assert(gt@ == seq!['>']);
    let qv = vec!['"'];
    assert(qv@ == seq!['"']);
    let mut out: Vec<(String, String)> = Vec::new();
    let mut at: usize = 0;
    loop
        invariant_except_break
            reads_from(text@, 0) == calls_view(out@) + reads_from(text@, at as int),
        invariant
            at <= len,
            len == text@.len(),
            open@ == "<read"@,
            gt@ == seq!['>'],
            qv@ == seq!['"'],
        ensures
            reads_from(text@, 0) == calls_view(out@),
        decreases len - at,
    {
        let ghost before = calls_view(out@);
        let s = match find_at(text, &open, at) {
            Some(s) => s,
            None => {
                assert(calls_view(out@) + seq![] =~= calls_view(out@));
                break;
            },
        };
        proof {
            lemma_find_from(text@, open@, at as int);
        }
        let a = s + open.len();
        let g = match find_at(text, &gt, a) {
            Some(g) => g,
            None => {
                assert(calls_view(out@) + seq![] =~= calls_view(out@));
                break;
            },
        };
        proof {
            lemma_find_from(text@, gt@, a as int);
        }
        let head = slice(text, a, g);
        assert(a == s + "<read"@.len());
        if head.len() > 0 && !crate::strs::ws(head[0]) {
            assert(reads_from(text@, at as int) == reads_from(text@, g + 1));
            at = g + 1;
            continue;
        }
        proof {
            reveal_strlit("\"");
        }
        assert("\""@ == seq!['"']);
        let quoted = match second_str(&head, "\"") {
            Some(q) => {
                let t = trimmed(&q);
                if t.len() > 0 {
                    Some(t)
                } else {
                    None
                }
            },
            None => None,
        };
        assert(match quoted {
            Some(t) => second_piece(head@, seq!['"']) matches Some(q) && trim(q).len() > 0 && trim(q) == t@,
            None => !(second_piece(head@, seq!['"']) matches Some(q) && trim(q).len() > 0),
        });
        let named = match quoted {
            Some(q) => Some(q),
            None => {
                let tail = slice(text, g + 1, len);
                assert(tail@ =~= text@.skip(g + 1));
                param_named(&tail)
            },
        };
        match named {
            Some(n) => {
                let c = (string_of(&chars_of("read")), string_of(&n));
                out.push(c);
                assert(calls_view(out@) =~= before.push((c.0@, c.1@)));
                let ghost rest = reads_from(text@, g + 1);
                assert(reads_from(text@, at as int) == seq![("read"@, n@)] + rest);
                assert(calls_view(out@) + rest =~= before + (seq![("read"@, n@)] + rest));
            },
            None => {
                assert(reads_from(text@, at as int) == reads_from(text@, g + 1));
            },
        }
        at = g + 1;
    }
    out
}

/// Every call a reply is making, in the order it made them.
///
/// More than one, because models ask for more than one at a time: given
/// three things to find out, they write all three blocks in a single reply.
pub fn calls(reply: &str) -> (r: Vec<(String, String)>)
    ensures
        calls_view(r@) == calls_of(reply@),
{
    let text = chars_of(reply);
    let sep = chars_of("<function=");
    proof {
        reveal_strlit("<function=");
    }
    let pieces = crate::strs::split_at_each(&text, &sep);
    let ghost all = split_on(text@, sep@);
    let ghost ps = all.drop_first();
    let mut out: Vec<(String, String)> = Vec::new();
    let mut i: usize = 1;
    while i < pieces.len()
        invariant
            1 <= i <= pieces@.len() || pieces@.len() == 0,
            pieces@.len() == all.len(),
            forall|j: int| 0 <= j < pieces@.len() ==> #[trigger] pieces@[j]@ == all[j],
            ps == all.drop_first(),
            calls_view(out@) == some_calls(ps, i - 1),
        decreases pieces.len() - i,
    {
        assert(ps[i - 1] == pieces@[i as int]@);
        match one_call(&pieces[i]) {
            Some((n, v)) => {
                let ghost before = calls_view(out@);
                let c = (string_of(&n), string_of(&v));
                out.push(c);
                assert(calls_view(out@) =~= before.push((n@, v@)));
            },
            None => {},
        }
        i = i + 1;
    }
    proof {
        if pieces@.len() > 0 {
            assert(i == pieces@.len());
        }
    }
    let reads = asked_to_read(&text);
    let ghost first = calls_view(out@);
    let mut k: usize = 0;
    while k < reads.len()
        invariant
            k <= reads@.len(),
            calls_view(out@) == first + calls_view(reads@).take(k as int),
        decreases reads.len() - k,
    {
        let ghost before = calls_view(out@);
        let c = (reads[k].0.clone(), reads[k].1.clone());
        out.push(c);
        assert(calls_view(out@) =~= before.push((c.0@, c.1@)));
        assert(calls_view(reads@).take(k + 1) =~= calls_view(reads@).take(k as int).push(calls_view(reads@)[k as int]));
        k = k + 1;
    }
    assert(calls_view(reads@).take(reads@.len() as int) =~= calls_view(reads@));
    out
}

/// The tool call a reply is making, if it is making one: the first of them.
pub fn called(reply: &str) -> (r: Option<(String, String)>)
    ensures
        calls_of(reply@).len() == 0 ==> r is None,
        calls_of(reply@).len() > 0 ==> (r matches Some(c) && (c.0@, c.1@) == calls_of(reply@)[0]),
{
    let all = calls(reply);
    if all.len() == 0 {
        None
    } else {
        assert(calls_view(all@)[0] == (all@[0].0@, all@[0].1@));
        Some((all[0].0.clone(), all[0].1.clone()))
    }
}

// ------------------------------------------------------------- the worker

/// What came back, or why nothing did.
pub type Reply = Result<String, String>;

/// What a backend calls as it goes, and what it hears back.
pub trait Watcher {
    /// How far along, and what has been said so far.
    fn tick(&mut self, at: Progress, said: &str);
    /// False once somebody has asked for this to stop.
    fn carry_on(&self) -> bool;
}

/// A watcher for a caller that is not watching: a test, or anything that
/// wants the answer and not the writing of it.
pub struct Quiet;

impl Watcher for Quiet {
    fn tick(&mut self, at: Progress, said: &str) {
    }

    /// It never asks to stop.
    fn carry_on(&self) -> (r: bool)
        ensures
            r,
    {
        true
    }
}

/// Something that can rewrite a piece of text on request.
pub trait Backend {
    /// What it is called.
    spec fn called(&self) -> Seq<char>;

    /// Shown in the status bar, so it is never a mystery which one answered.
    fn name(&self) -> (r: String)
        ensures
            r@ == self.called(),
    ;

    /// Answer, telling `watch` as often as there is something new to report,
    /// and stopping when it says to.
    fn edit(&mut self, ask: &Ask, watch: &mut dyn Watcher) -> Reply;
}

/// What was heard from the worker when it was asked for an answer.
pub enum Polled {
    /// Nothing yet.
    Empty,
    /// The answer to the question in flight.
    Arrived(Reply),
    /// The worker is no longer there.
    Disconnected,
}

/// A backend's state as the application sees it: one question outstanding
/// at a time. The worker and the channels to it are the application's; this
/// decides what each thing heard from them means.
pub struct Assistant {
    name: String,
    busy: bool,
    gone: bool,
    /// The last thing the worker said about the question in flight.
    progress: Progress,
    /// The answer so far, while there is one.
    partial: String,
}

/// What the application knows of the assistant: its name, whether a
/// question is outstanding, whether the worker is gone, and the answer so
/// far.
pub struct Standing {
    pub name: Seq<char>,
    pub busy: bool,
    pub gone: bool,
    pub partial: Seq<char>,
    pub progress: Progress,
}

impl View for Assistant {
    type V = Standing;

    closed spec fn view(&self) -> Standing {
        Standing {
            name: self.name@,
            busy: self.busy,
            gone: self.gone,
            partial: self.partial@,
            progress: self.progress,
        }
    }
}

impl Assistant {
    /// A backend called `name`, with nothing asked of it yet.
    pub fn new(name: String) -> (r: Self)
        ensures
            r@ == (Standing {
                name: name@,
                busy: false,
                gone: false,
                partial: Seq::empty(),
                progress: r@.progress,
            }),
            counts_nothing(r@.progress),
    {
        Assistant { name, busy: false, gone: false, progress: Progress::none(), partial: String::new() }
    }

    /// Shown in the status bar, so it is never a mystery which one answered.
    pub fn name(&self) -> (r: &str)
        ensures
            r@ == self@.name,
    {
        self.name.as_str()
    }

    /// Whether a question is outstanding.
    pub fn busy(&self) -> (r: bool)
        ensures
            r == self@.busy,
    {
        self.busy
    }

    /// Post a question, `delivered` saying whether it reached the worker.
    ///
    /// Refused while one is already outstanding, so a second click cannot
    /// leave two answers racing for the same selection; a question that could
    /// not be delivered means the worker is gone.
    pub fn ask(&mut self, delivered: bool) -> (r: bool)
        ensures
            old(self)@.busy ==> !r && final(self)@ == old(self)@,
            !old(self)@.busy ==> r == delivered && counts_nothing(final(self)@.progress) && final(self)@ == (
            Standing { busy: delivered, gone: !delivered, progress: final(self)@.progress, ..old(self)@ }),
    {
        if self.busy {
            return false;
        }
        self.progress = Progress::none();
        self.busy = delivered;
        self.gone = !self.busy;
        self.busy
    }

    /// Whether the thread that answers is no longer there: only ever true
    /// after a question failed to reach it.
    pub fn gone(&self) -> (r: bool)
        ensures
            r == self@.gone,
    {
        self.gone
    }

    /// Where the question in flight has got to: the latest the worker said,
    /// if it said anything since, and otherwise what it said last.
    pub fn progress(&mut self, latest: Option<Progress>) -> (r: Progress)
        ensures
            latest matches Some(p) ==> r == p && final(self)@ == (Standing { progress: p, ..old(self)@ }),
            latest is None ==> r == old(self)@.progress && final(self)@ == old(self)@,
    {
        match latest {
            Some(p) => {
                self.progress = p;
            },
            None => {},
        }
        self.progress
    }

    /// The answer as far as it has got: the latest the worker sent, if it
    /// sent anything since, and otherwise what it sent last.
    pub fn partial(&mut self, latest: Option<String>) -> (r: &str)
        ensures
            latest matches Some(s) ==> r@ == s@ && final(self)@ == (Standing { partial: s@, ..old(self)@ }),
            latest is None ==> r@ == old(self)@.partial && final(self)@ == old(self)@,
    {
        match latest {
            Some(s) => {
                self.partial = s;
            },
            None => {},
        }
        self.partial.as_str()
    }

    /// Ask the question in flight to give up: whether there is one to ask.
    pub fn stop(&self) -> (r: bool)
        ensures
            r == self@.busy,
    {
        self.busy
    }

    /// Collect an answer if one has arrived. An answer ends the question and
    /// clears what had been written so far; a worker that has gone ends it
    /// with a reply saying so.
    pub fn poll(&mut self, got: Polled) -> (r: Option<Reply>)
        ensures
            got is Empty ==> r is None && final(self)@ == old(self)@,
            got matches Polled::Arrived(reply) ==> r == Some(reply) && final(self)@ == (Standing {
                busy: false,
                partial: Seq::empty(),
                ..old(self)@
            }),
            got is Disconnected ==> (r matches Some(Err(why)) && why@ == "the assistant went away"@)
                && final(self)@ == (Standing { busy: false, ..old(self)@ }),
    {
        match got {
            Polled::Empty => None,
            Polled::Arrived(reply) => {
                self.busy = false;
                self.partial = String::new();
                Some(reply)
            },
            Polled::Disconnected => {
                self.busy = false;
                Some(Err(string_of(&chars_of("the assistant went away"))))
            },
        }
    }
}

// ------------------------------------------------------------- rehearsal

/// A stand-in that does a few mechanical fixes without a model, so the whole
/// interaction can be built and tried before any weights are involved. It is
/// not pretending to be intelligent: it says so in its name.
pub struct Rehearsal;

/// A word with the three misspellings it knows put right.
pub open spec fn fixed_word(w: Seq<char>) -> Seq<char> {
    if w == "teh"@ {
        "the"@
    } else if w == "adn"@ {
        "and"@
    } else if w == "recieve"@ {
        "receive"@
    } else {
        w
    }
}

/// The words of a line, each put right.
pub open spec fn fixed_words(ws: Seq<Seq<char>>) -> Seq<Seq<char>> {
    ws.map_values(|w: Seq<char>| fixed_word(w))
}

/// A line put right, its indent kept, its words one space apart.
pub open spec fn rehearsed_line(l: Seq<char>) -> Seq<char> {
    l.take(lead(l) as int) + join(fixed_words(ws_words(l)), " "@)
}

/// The passage put right line by line.
pub open spec fn rehearsed_text(source: Seq<char>) -> Seq<char> {
    join(lines(source).map_values(|l: Seq<char>| rehearsed_line(l)), "\n"@)
}

/// What the rehearsal answers: the passage put right, or - when there was
/// nothing to put right, so that something differs and there is a diff to
/// review - the passage with the request after it, in lowercase.
pub open spec fn rehearsal_of(source: Seq<char>, request: Seq<char>) -> Seq<char> {
    let out = rehearsed_text(source);
    if out == source {
        out + " ("@ + crate::strs::lower_of(trim(request)) + ")"@
    } else {
        out
    }
}

/// A word put right.
fn fix_word(w: &[char]) -> (r: Vec<char>)
    ensures
        r@ == fixed_word(w@),
{
    if same(w, &chars_of("teh")) {
        chars_of("the")
    } else if same(w, &chars_of("adn")) {
        chars_of("and")
    } else if same(w, &chars_of("recieve")) {
        chars_of("receive")
    } else {
        slice(w, 0, w.len())
    }
}

/// A line put right.
fn rehearse_line(l: &[char]) -> (r: Vec<char>)
    ensures
        r@ == rehearsed_line(l@),
{
    let n = lead_len(l);
    let mut line = slice(l, 0, n);
    let words = ws_words_of(l);
    let mut fixed: Vec<Vec<char>> = Vec::new();
    let mut i: usize = 0;
    while i < words.len()
        invariant
            i <= words@.len(),
            views(fixed@) == fixed_words(views(words@)).take(i as int),
        decreases words.len() - i,
    {
        let f = fix_word(&words[i]);
        let ghost before = views(fixed@);
        fixed.push(f);
        assert(views(fixed@) =~= before.push(f@));
        assert(fixed_words(views(words@)).take(i + 1) =~= fixed_words(views(words@)).take(i as int).push(
            fixed_word(views(words@)[i as int]),
        ));
        i = i + 1;
    }
    assert(fixed_words(views(words@)).take(words@.len() as int) =~= fixed_words(views(words@)));
    let sp = chars_of(" ");
    let j = joined(&fixed, &sp);
    push_all(&mut line, &j);
    line
}

impl Backend for Rehearsal {
    open spec fn called(&self) -> Seq<char> {
        "REHEARSAL"@
    }

    fn name(&self) -> (r: String) {
        Rehearsal::name(self)
    }

    /// It answers at once, so there is one report and it is the finished one.
    fn edit(&mut self, ask: &Ask, watch: &mut dyn Watcher) -> (r: Reply)
        ensures
            r matches Ok(text) && text@ == rehearsal_of(ask.source@, ask.request@),
    {
        let p = self.report(ask);
        watch.tick(p, "");
        self.answer(ask)
    }
}

impl Rehearsal {
    /// What it is called in the status bar.
    pub fn name(&self) -> (r: String)
        ensures
            r@ == "REHEARSAL"@,
    {
        string_of(&chars_of("REHEARSAL"))
    }

    /// The one report it makes, since it answers at once: how many words
    /// the passage came to.
    pub fn report(&self, ask: &Ask) -> (r: Progress)
        ensures
            r.prompt == ws_words(ask.source@).len(),
            r.read == 0 && r.written == 0 && !r.loading && !r.looking && !r.deliberating,
    {
        let mut p = Progress::none();
        p.prompt = ws_words_of(&chars_of(ask.source.as_str())).len();
        p
    }

    /// Answer a request for the passage in it.
    pub fn answer(&self, ask: &Ask) -> (r: Reply)
        ensures
            r matches Ok(text) && text@ == rehearsal_of(ask.source@, ask.request@),
    {
        let source = chars_of(ask.source.as_str());
        let ls = lines_of(&source);
        let ghost all = lines(source@);
        let ghost done = all.map_values(|l: Seq<char>| rehearsed_line(l));
        let mut out_lines: Vec<Vec<char>> = Vec::new();
        let mut k: usize = 0;
        while k < ls.len()
            invariant
                k <= ls@.len(),
                ls@.len() == all.len(),
                forall|j: int| 0 <= j < ls@.len() ==> #[trigger] ls@[j]@ == all[j],
                done == all.map_values(|l: Seq<char>| rehearsed_line(l)),
                views(out_lines@) == done.take(k as int),
            decreases ls.len() - k,
        {
            let line = rehearse_line(&ls[k]);
            let ghost before = views(out_lines@);
            out_lines.push(line);
            assert(views(out_lines@) =~= before.push(line@));
            assert(done.take(k + 1) =~= done.take(k as int).push(rehearsed_line(all[k as int])));
            k = k + 1;
        }
        assert(done.take(ls@.len() as int) =~= done);
        let nl = chars_of("\n");
        let out = joined(&out_lines, &nl);
        if same(&out, &source) {
            let mut o = out;
            push_str(&mut o, " (");
            let req = trimmed(&chars_of(ask.request.as_str()));
            let low = crate::strs::lower(&req);
            push_all(&mut o, &low);
            push_str(&mut o, ")");
            Ok(string_of(&o))
        } else {
            Ok(string_of(&out))
        }
    }
}

// ------------------------------------------------------------- fitting in

/// The line put on the front of what is kept once earlier turns are let go.
pub open spec fn left_out() -> Seq<char> {
    "[Earlier turns of this conversation have been left out to make room.]"@
}

/// Forward from `f` to the next question, never past the newest turn.
pub open spec fn forward(turns: Seq<(bool, Seq<char>)>, f: int) -> int
    decreases turns.len() - f,
{
    if 0 <= f < turns.len() - 1 && !turns[f].0 {
        forward(turns, f + 1)
    } else {
        f
    }
}

/// Where the kept part starts after letting two more turns go from `from`:
/// two at a time, then forward to the next thing somebody asked.
pub open spec fn next_start(turns: Seq<(bool, Seq<char>)>, from: int) -> int {
    forward(
        turns,
        if from + 2 < turns.len() - 1 {
            from + 2
        } else {
            turns.len() - 1
        },
    )
}

/// Where the kept part starts at the `k`th try.
pub open spec fn nth_start(turns: Seq<(bool, Seq<char>)>, k: nat) -> int
    decreases k,
{
    if k == 0 {
        0
    } else {
        next_start(turns, nth_start(turns, (k - 1) as nat))
    }
}

/// The turns from `f` on, the first told that it is not the whole story.
pub open spec fn kept_of(turns: Seq<(bool, Seq<char>)>, f: int) -> Seq<(bool, Seq<char>)> {
    let k = turns.skip(f);
    k.update(0, (k[0].0, left_out() + "\n\n"@ + k[0].1))
}

/// `measure` was asked about turns that are these, and said this.
pub open spec fn measured<F: Fn(&[Turn]) -> usize>(measure: F, v: Seq<(bool, Seq<char>)>, m: usize) -> bool {
    exists|s: &[Turn]| turns_view(s@) == v && call_ensures(measure, (s,), m)
}

/// The `j`th cut of a conversation was measured over the limit.
pub open spec fn cut_over<F: Fn(&[Turn]) -> usize>(measure: F, turns: Seq<(bool, Seq<char>)>, j: nat, limit: usize) -> bool {
    exists|m: usize| m > limit && #[trigger] measured(measure, kept_of(turns, nth_start(turns, j)), m)
}

impl Turn {
    /// The same turn, copied.
    pub fn copy(&self) -> (r: Turn)
        ensures
            r@ == self@,
    {
        Turn { mine: self.mine, text: self.text.clone() }
    }
}

/// Every turn, copied.
fn copy_turns(turns: &[Turn], from: usize) -> (r: Vec<Turn>)
    requires
        from <= turns@.len(),
    ensures
        turns_view(r@) == turns_view(turns@).skip(from as int),
{
    let mut out: Vec<Turn> = Vec::new();
    let mut i = from;
    while i < turns.len()
        invariant
            from <= i <= turns@.len(),
            turns_view(out@) == turns_view(turns@).subrange(from as int, i as int),
        decreases turns.len() - i,
    {
        let ghost before = turns_view(out@);
        let t = turns[i].copy();
        out.push(t);
        assert(turns_view(out@) =~= before.push(t@));
        assert(turns_view(turns@).subrange(from as int, i + 1) =~= turns_view(turns@).subrange(from as int, i as int).push(turns@[i as int]@));
        i = i + 1;
    }
    assert(turns_view(turns@).subrange(from as int, turns@.len() as int) =~= turns_view(turns@).skip(from as int));
    out
}

/// As much of a conversation as fits, counted from the newest turn back.
///
/// `measure` says how long a set of turns comes to, in whatever unit `limit`
/// is in. The oldest turns go first, two at a time, and then forward to the
/// next question, so what is left still begins with somebody asking
/// something; the newest turn is never let go of. Whatever is left is told
/// that it is not the whole story, in a line on the front of its first turn.
///
/// All of them when there are none or they fit; otherwise the first cut
/// that fits, or that is down to the newest turn alone - every earlier cut,
/// and the whole, having been measured over the limit.
pub fn fitted<F: Fn(&[Turn]) -> usize>(turns: &[Turn], limit: usize, measure: F) -> (r: Vec<Turn>)
    requires
        forall|s: &[Turn]| #[trigger] measure.requires((s,)),
    ensures
        turns@.len() == 0 ==> turns_view(r@) == turns_view(turns@),
        turns@.len() > 0 ==> {
            ||| turns_view(r@) == turns_view(turns@) && exists|m: usize|
                m <= limit && #[trigger] call_ensures(measure, (turns,), m)
            ||| (exists|m: usize| m > limit && #[trigger] call_ensures(measure, (turns,), m))
                && exists|k: nat|
                k >= 1 && turns_view(r@) == kept_of(turns_view(turns@), nth_start(turns_view(turns@), k))
                    && (nth_start(turns_view(turns@), k) >= turns@.len() - 1 || exists|m: usize|
                    m <= limit && #[trigger] measured(measure, turns_view(r@), m)) && forall|j: nat|
                    1 <= j < k ==> #[trigger] cut_over(measure, turns_view(turns@), j, limit)
        },
{
    let ghost tv = turns_view(turns@);
    if turns.len() == 0 {
        return copy_turns(turns, 0);
    }
    let whole = measure(turns);
    if whole <= limit {
        return copy_turns(turns, 0);
    }
    let n = turns.len();
    let mut from: usize = 0;
    let ghost mut k: nat = 0;
    loop
        invariant
            n == turns@.len(),
            n > 0,
            tv == turns_view(turns@),
            from < n,
            from == nth_start(tv, k),
            whole > limit,
            call_ensures(measure, (turns,), whole),
            forall|s: &[Turn]| #[trigger] measure.requires((s,)),
            forall|j: nat| 1 <= j <= k ==> #[trigger] cut_over(measure, tv, j, limit),
        decreases n - from,
    {
        let mut f = if n - 1 - from > 2 {
            from + 2
        } else {
            n - 1
        };
        let ghost f0 = f;
        while f < n - 1 && !turns[f].mine
            invariant
                n == turns@.len(),
                n > 0,
                tv == turns_view(turns@),
                f0 <= f <= n - 1,
                forward(tv, f as int) == forward(tv, f0 as int),
            decreases n - f,
        {
            assert(tv[f as int] == turns@[f as int]@);
            f = f + 1;
        }
        if f < n - 1 {
            assert(tv[f as int] == turns@[f as int]@);
        }
        proof {
            k = k + 1;
        }
        assert(f == nth_start(tv, k));
        let mut kept = copy_turns(turns, f);
        let ghost plain = turns_view(kept@);
        assert(plain.len() == n - f);
        assert(kept@.len() == n - f);
        let mut text = chars_of("[Earlier turns of this conversation have been left out to make room.]");
        push_str(&mut text, "\n\n");
        push_str(&mut text, kept[0].text.as_str());
        let first = Turn { mine: kept[0].mine, text: string_of(&text) };
        kept.set(0, first);
        assert(turns_view(kept@) =~= kept_of(tv, f as int));
        if f >= n - 1 {
            return kept;
        }
        let m = measure(kept.as_slice());
        if m <= limit {
            assert(measured(measure, turns_view(kept@), m));
            return kept;
        }
        assert(measured(measure, kept_of(tv, nth_start(tv, k)), m));
        assert(cut_over(measure, tv, k, limit));
        assert(f > from);
        from = f;
    }
}

} // verus!
