//! Conversations, kept beside the note they are about.
//!
//! A chat is not a note. It is persisted like one - a markdown file you can
//! read with anything - but it is not in the vault, and it is filed under the
//! project it was started from, because that is how it is looked for.
//!
//! The transcript is markdown with the turns marked by headings, so the file
//! reads as itself outside this program. The markers are only markers at the
//! top level of the document; a `## you` inside a fenced code block is code,
//! which is checked on the way in and enforced on the way out.
use vstd::prelude::*;

pub mod applying;
pub mod change;
pub mod conversation;
pub mod history;
pub mod panel;
pub mod readback;

pub use conversation::Chat;
pub use change::{elsewhere, own_name, proposals, settle, Change, Folder, What};
pub use history::{as_sent, without_bodies};
pub use panel::{doing, Picked, Picker};

use crate::chat::change::{attr, attr_of, is_fence, fence_line, quote};
use crate::chat::history::used_shut;
use crate::llm::Turn;
use crate::strs::{
    ascii_lower, chars_of, cut_at, cut_len, find, find_at, find_from, join, joined, lead_len,
    lemma_find_from, lines, lines_of, push_all, push_str, rfind, rfind_in, same, same_ignoring_case,
    eq_ignore_case, slice, starts_with, string_of, trim, trim_end, trim_start, trim_start_pat,
    trimmed, trimmed_end, trimmed_start, trimmed_start_pat, upper, upper_of, uppercase, views,
    write_u64, decimal, ws_words, ws_words_of, blank, is_blank, is_ws,
};

verus! {

// --------------------------------------------------------------- commands

/// One thing that can be typed with a slash in front of it.
#[derive(Clone, Copy, Debug)]
pub struct Command {
    pub name: &'static str,
    /// What it takes after the name, for the listing and for completing it.
    pub takes: &'static str,
    pub what: &'static str,
}

impl View for Command {
    type V = (Seq<char>, Seq<char>, Seq<char>);

    open spec fn view(&self) -> (Seq<char>, Seq<char>, Seq<char>) {
        (self.name@, self.takes@, self.what@)
    }
}

/// Commands, as values.
pub open spec fn commands_view(v: Seq<Command>) -> Seq<(Seq<char>, Seq<char>, Seq<char>)> {
    v.map_values(|c: Command| c@)
}

/// Every command there is: the table is what `/help` prints and what
/// completion offers.
pub open spec fn command_table() -> Seq<(Seq<char>, Seq<char>, Seq<char>)> {
    seq![
        ("rename"@, " <name>"@, "call this conversation something"@),
        ("web"@, ""@, "let it look things up, or stop it"@),
        ("help"@, ""@, "list what can be typed here"@),
    ]
}

/// Every command there is.
pub fn commands() -> (r: Vec<Command>)
    ensures
        commands_view(r@) == command_table(),
        r@.len() == 3,
{
    let r = vec![
        Command { name: "rename", takes: " <name>", what: "call this conversation something" },
        Command { name: "web", takes: "", what: "let it look things up, or stop it" },
        Command { name: "help", takes: "", what: "list what can be typed here" },
    ];
    assert(commands_view(r@) =~= command_table());
    r
}

/// `n` spaces.
pub open spec fn spaces(n: int) -> Seq<char> {
    Seq::new(if n > 0 { n as nat } else { 0 }, |i: int| ' ')
}

/// `s` padded with spaces to `width` characters.
pub open spec fn padded(s: Seq<char>, width: int) -> Seq<char> {
    s + spaces(width - s.len())
}

/// The widest of the first `n` commands, name and argument together.
pub open spec fn widest(cs: Seq<(Seq<char>, Seq<char>, Seq<char>)>, n: int) -> nat
    decreases n,
{
    if n <= 0 {
        0
    } else {
        let w = widest(cs, n - 1);
        let here = cs[n - 1].0.len() + cs[n - 1].1.len();
        if here > w {
            here
        } else {
            w
        }
    }
}

/// A command's line in the listing.
pub open spec fn manual_line(c: (Seq<char>, Seq<char>, Seq<char>), width: int) -> Seq<char> {
    padded(seq!['/'] + c.0 + c.1, width) + "   "@ + c.2
}

/// The listing's lines.
pub open spec fn manual_lines(cs: Seq<(Seq<char>, Seq<char>, Seq<char>)>, width: int) -> Seq<Seq<char>> {
    cs.map_values(|c: (Seq<char>, Seq<char>, Seq<char>)| manual_line(c, width))
}

/// The commands, one per line, laid out in a column one wider than the
/// widest name with its argument.
pub open spec fn manual_of() -> Seq<char> {
    let cs = command_table();
    join(manual_lines(cs, (widest(cs, cs.len() as int) + 1) as int), "\n"@)
}

/// The commands, one per line, laid out in a column.
pub fn manual() -> (r: String)
    ensures
        r@ == manual_of(),
{
    let cs = commands();
    let ghost cv = commands_view(cs@);
    let mut w: usize = 0;
    let mut i: usize = 0;
    while i < cs.len()
        invariant
            i <= cs@.len(),
            cv == commands_view(cs@),
            cv == command_table(),
            cs@.len() == 3,
            w == widest(cv, i as int),
            w <= 13,
        decreases cs.len() - i,
    {
        proof {
            reveal_strlit("rename");
            reveal_strlit(" <name>");
            reveal_strlit("web");
            reveal_strlit("help");
            reveal_strlit("");
        }
        assert(cv[i as int] == cs@[i as int]@);
        assert(cv[i as int].0.len() <= 6 && cv[i as int].1.len() <= 7) by {
            assert(i == 0 || i == 1 || i == 2);
        }
        let here = chars_of(cs[i].name).len() + chars_of(cs[i].takes).len();
        if here > w {
            w = here;
        }
        i = i + 1;
    }
    let width = w + 1;
    let mut lines: Vec<Vec<char>> = Vec::new();
    let mut i: usize = 0;
    while i < cs.len()
        invariant
            i <= cs@.len(),
            cv == commands_view(cs@),
            width == widest(cv, cv.len() as int) + 1,
            cv == command_table(),
            cs@.len() == 3,
            views(lines@) == manual_lines(cv, width as int).take(i as int),
        decreases cs.len() - i,
    {
        assert(cv[i as int] == cs@[i as int]@);
        let mut head = vec!['/'];
        push_str(&mut head, cs[i].name);
        push_str(&mut head, cs[i].takes);
        let ghost h = head@;
        while head.len() < width
            invariant
                h.len() <= head@.len() <= width || (head@.len() == h.len() && h.len() > width),
                head@ == h + spaces(head@.len() - h.len()),
            decreases width - head.len(),
        {
            head.push(' ');
            assert(head@ =~= h + spaces(head@.len() - h.len()));
        }
        assert(head@ =~= padded(h, width as int));
        push_str(&mut head, "   ");
        push_str(&mut head, cs[i].what);
        assert(h == seq!['/'] + cv[i as int].0 + cv[i as int].1);
        assert(head@ == manual_line(cv[i as int], width as int));
        let ghost before = views(lines@);
        lines.push(head);
        assert(views(lines@) =~= before.push(head@));
        assert(manual_lines(cv, width as int).take(i + 1) =~= manual_lines(cv, width as int).take(
            i as int,
        ).push(manual_line(cv[i as int], width as int)));
        i = i + 1;
    }
    assert(manual_lines(cv, width as int).take(cs@.len() as int) =~= manual_lines(cv, width as int));
    let nl = chars_of("\n");
    string_of(&joined(&lines, &nl))
}

/// The first `n` commands whose name begins with `rest`.
pub open spec fn named_from(cs: Seq<(Seq<char>, Seq<char>, Seq<char>)>, rest: Seq<char>, n: int) -> Seq<
    (Seq<char>, Seq<char>, Seq<char>),
>
    decreases n,
{
    if n <= 0 {
        seq![]
    } else {
        let r = named_from(cs, rest, n - 1);
        if starts_with(cs[n - 1].0, rest) {
            r.push(cs[n - 1])
        } else {
            r
        }
    }
}

/// The commands a half-typed one could still become: none once there is a
/// space, because the name is settled by then and what follows is an
/// argument.
pub open spec fn completions_of(draft: Seq<char>) -> Seq<(Seq<char>, Seq<char>, Seq<char>)> {
    if draft.len() > 0 && draft[0] == '/' && !draft.drop_first().contains(' ') {
        named_from(command_table(), draft.drop_first(), 3)
    } else {
        seq![]
    }
}

/// The commands a half-typed one could still become.
pub fn completions(draft: &str) -> (r: Vec<Command>)
    ensures
        commands_view(r@) == completions_of(draft@),
{
    let d = chars_of(draft);
    let mut out: Vec<Command> = Vec::new();
    if d.len() == 0 || d[0] != '/' {
        assert(commands_view(out@) =~= seq![]);
        return out;
    }
    let rest = slice(&d, 1, d.len());
    assert(rest@ =~= d@.drop_first());
    if crate::strs::has_ch(&rest, ' ') {
        assert(rest@.contains(' '));
        assert(commands_view(out@) =~= seq![]);
        return out;
    }
    let cs = commands();
    let ghost cv = commands_view(cs@);
    let mut i: usize = 0;
    while i < cs.len()
        invariant
            i <= cs@.len(),
            cv == commands_view(cs@),
            cv == command_table(),
            commands_view(out@) == named_from(cv, rest@, i as int),
        decreases cs.len() - i,
    {
        let c = cs[i];
        assert(c@ == cv[i as int]);
        let name = chars_of(c.name);
        if crate::strs::at(&name, &rest, 0) {
            let ghost before = commands_view(out@);
            out.push(c);
            assert(commands_view(out@) =~= before.push(c@));
        }
        i = i + 1;
    }
    assert(rest@ == draft@.drop_first());
    assert(cs@.len() == 3);
    out
}

/// How many characters two texts begin with in common.
pub open spec fn shared(a: Seq<char>, b: Seq<char>) -> nat
    decreases a.len(),
{
    if a.len() == 0 || b.len() == 0 || a[0] != b[0] {
        0
    } else {
        1 + shared(a.drop_first(), b.drop_first())
    }
}

/// The longest beginning the names of the first `k` hits share.
pub open spec fn common_of(hits: Seq<(Seq<char>, Seq<char>, Seq<char>)>, k: int) -> Seq<char>
    decreases k,
{
    if k <= 1 {
        hits[0].0
    } else {
        let c = common_of(hits, k - 1);
        c.take(shared(c, hits[k - 1].0) as int)
    }
}

/// What Tab makes of a half-typed command: the longest beginning every
/// candidate shares; one match finishes the word, with the space its argument
/// would go after if it takes one.
pub open spec fn complete_of(draft: Seq<char>) -> Option<Seq<char>> {
    let hits = completions_of(draft);
    if hits.len() == 0 {
        None
    } else {
        let common = common_of(hits, hits.len() as int);
        if hits.len() == 1 {
            Some(
                seq!['/'] + common + if hits[0].1.len() == 0 {
                    seq![]
                } else {
                    seq![' ']
                },
            )
        } else {
            Some(seq!['/'] + common)
        }
    }
}

proof fn lemma_shared(a: Seq<char>, b: Seq<char>)
    ensures
        shared(a, b) <= a.len(),
        shared(a, b) <= b.len(),
        forall|i: int| 0 <= i < shared(a, b) ==> a[i] == b[i],
        shared(a, b) < a.len() && shared(a, b) < b.len() ==> a[shared(a, b) as int] != b[shared(
            a,
            b,
        ) as int],
    decreases a.len(),
{
    if !(a.len() == 0 || b.len() == 0 || a[0] != b[0]) {
        lemma_shared(a.drop_first(), b.drop_first());
        assert forall|i: int| 0 <= i < shared(a, b) implies a[i] == b[i] by {
            if i > 0 {
                assert(a[i] == a.drop_first()[i - 1]);
                assert(b[i] == b.drop_first()[i - 1]);
            }
        }
    }
}

proof fn lemma_shared_is(a: Seq<char>, b: Seq<char>, k: int)
    requires
        0 <= k <= a.len(),
        k <= b.len(),
        forall|i: int| 0 <= i < k ==> a[i] == b[i],
        k == a.len() || k == b.len() || a[k] != b[k],
    ensures
        shared(a, b) == k,
    decreases k,
{
    if k > 0 {
        assert forall|i: int| 0 <= i < k - 1 implies a.drop_first()[i] == b.drop_first()[i] by {
            assert(a[i + 1] == b[i + 1]);
        }
        if k < a.len() && k < b.len() {
            assert(a.drop_first()[k - 1] == a[k]);
        }
        lemma_shared_is(a.drop_first(), b.drop_first(), k - 1);
    }
}

/// What Tab should make of a half-typed command.
pub fn complete(draft: &str) -> (r: Option<String>)
    ensures
        r matches Some(s) ==> complete_of(draft@) == Some(s@),
        r is None ==> complete_of(draft@) is None,
{
    let hits = completions(draft);
    let ghost hv = commands_view(hits@);
    if hits.len() == 0 {
        return None;
    }
    let mut common = chars_of(hits[0].name);
    let mut k: usize = 1;
    while k < hits.len()
        invariant
            1 <= k <= hits@.len(),
            hv == commands_view(hits@),
            common@ == common_of(hv, k as int),
        decreases hits.len() - k,
    {
        let name = chars_of(hits[k].name);
        let mut keep: usize = 0;
        while keep < common.len() && keep < name.len() && common[keep] == name[keep]
            invariant
                keep <= common@.len(),
                keep <= name@.len(),
                forall|i: int| 0 <= i < keep ==> common@[i] == name@[i],
            decreases common.len() - keep,
        {
            keep = keep + 1;
        }
        proof {
            lemma_shared_is(common@, name@, keep as int);
        }
        common = slice(&common, 0, keep);
        k = k + 1;
    }
    let mut out = vec!['/'];
    push_all(&mut out, &common);
    if hits.len() == 1 {
        if chars_of(hits[0].takes).len() > 0 {
            out.push(' ');
            assert(out@ =~= seq!['/'] + common@ + seq![' ']);
        } else {
            assert(out@ =~= seq!['/'] + common@ + seq![]);
        }
    }
    Some(string_of(&out))
}

// ----------------------------------------------------------------- lookups

/// Where a turn begins, and whose it is.
pub open spec fn mine_marker() -> Seq<char> {
    "## you"@
}

/// Where a turn of the model's begins.
pub open spec fn theirs_marker() -> Seq<char> {
    "## assistant"@
}

/// Something the conversation looked up, and what came back.
#[derive(Clone, Debug)]
pub struct Lookup {
    pub tool: String,
    pub arg: String,
    pub result: String,
}

impl View for Lookup {
    type V = (Seq<char>, Seq<char>, Seq<char>);

    open spec fn view(&self) -> (Seq<char>, Seq<char>, Seq<char>) {
        (self.tool@, self.arg@, self.result@)
    }
}

/// Lookups, as values.
pub open spec fn lookups_view(v: Seq<Lookup>) -> Seq<(Seq<char>, Seq<char>, Seq<char>)> {
    v.map_values(|l: Lookup| l@)
}

/// A tool's argument, at a length that fits on a line: its words with one
/// space between each two, cut at forty-eight characters and marked as cut.
pub open spec fn shortened_of(arg: Seq<char>) -> Seq<char> {
    let flat = join(ws_words(arg), " "@);
    if flat.len() > 48 {
        trim_end(flat.take(48)) + "..."@
    } else {
        flat
    }
}

/// A tool's argument, at a length that fits on a line.
pub fn shortened(arg: &[char]) -> (r: Vec<char>)
    ensures
        r@ == shortened_of(arg@),
{
    let words = ws_words_of(arg);
    let sp = chars_of(" ");
    let flat = joined(&words, &sp);
    if flat.len() > 48 {
        let head = slice(&flat, 0, 48);
        assert(head@ =~= flat@.take(48));
        let mut out = trimmed_end(&head);
        push_str(&mut out, "...");
        out
    } else {
        flat
    }
}

/// What a fetch reached, without the scheme or the path.
pub open spec fn host_of(arg: Seq<char>) -> Seq<char> {
    cut_at(trim_start_pat(trim_start_pat(arg, "https://"@), "http://"@), seq!['/'])
}

/// What a lookup did, in words, before it is put in capitals.
pub open spec fn said_words(l: (Seq<char>, Seq<char>, Seq<char>)) -> Seq<char> {
    let arg = shortened_of(trim(l.1));
    let now = arg.len() == 0 || same_ignoring_case(arg, "today"@) || same_ignoring_case(arg, "now"@);
    let tool = l.0;
    if tool == "date"@ {
        if now {
            "CHECKED THE DATE AND TIME"@
        } else {
            "CHECKED WHEN "@ + arg + " IS"@
        }
    } else if tool == "calc"@ {
        "WORKED OUT "@ + arg
    } else if tool == "weather"@ {
        "CHECKED THE WEATHER IN "@ + arg
    } else if tool == "wikipedia"@ {
        "LOOKED UP "@ + arg
    } else if tool == "release"@ {
        "CHECKED THE LATEST RELEASE OF "@ + arg
    } else if tool == "fetch"@ {
        "READ "@ + host_of(arg)
    } else {
        "USED "@ + tool + " ON "@ + arg
    }
}

impl Lookup {
    /// What it did, in words: the call is worth showing, but not the wiring
    /// it was made with. In capitals, the way the panel draws it.
    pub fn said(&self) -> (r: String)
        ensures
            r@ == upper_of(said_words(self@)),
    {
        let arg = shortened(&trimmed(&chars_of(self.arg.as_str())));
        let now = arg.len() == 0 || eq_ignore_case(&arg, "today") || eq_ignore_case(&arg, "now");
        let tool = chars_of(self.tool.as_str());
        let mut out: Vec<char>;
        if same(&tool, &chars_of("date")) {
            if now {
                out = chars_of("CHECKED THE DATE AND TIME");
            } else {
                out = chars_of("CHECKED WHEN ");
                push_all(&mut out, &arg);
                push_str(&mut out, " IS");
            }
        } else if same(&tool, &chars_of("calc")) {
            out = chars_of("WORKED OUT ");
            push_all(&mut out, &arg);
        } else if same(&tool, &chars_of("weather")) {
            out = chars_of("CHECKED THE WEATHER IN ");
            push_all(&mut out, &arg);
        } else if same(&tool, &chars_of("wikipedia")) {
            out = chars_of("LOOKED UP ");
            push_all(&mut out, &arg);
        } else if same(&tool, &chars_of("release")) {
            out = chars_of("CHECKED THE LATEST RELEASE OF ");
            push_all(&mut out, &arg);
        } else if same(&tool, &chars_of("fetch")) {
            let bare = trimmed_start_pat(&trimmed_start_pat(&arg, "https://"), "http://");
            let slash = vec!['/'];
            assert(slash@ == seq!['/']);
            let n = cut_len(&bare, &slash);
            out = chars_of("READ ");
            let host = slice(&bare, 0, n);
            push_all(&mut out, &host);
        } else {
            out = chars_of("USED ");
            push_all(&mut out, &tool);
            push_str(&mut out, " ON ");
            push_all(&mut out, &arg);
        }
        string_of(&upper(&out))
    }
}

/// One lookup, from its tag and what it enclosed.
pub open spec fn lookup_of(tag: Seq<char>, inner: Seq<char>) -> (Seq<char>, Seq<char>, Seq<char>) {
    (
        match attr_of(tag, "tool"@) {
            Some(t) => t,
            None => seq![],
        },
        match attr_of(tag, "arg"@) {
            Some(a) => a,
            None => seq![],
        },
        trim(inner),
    )
}

/// The text from `at` on with the records of what was looked up lifted out,
/// and the lookups. A record that is not closed stays in the text.
pub open spec fn lookups_from(text: Seq<char>, at: int) -> (
    Seq<char>,
    Seq<(Seq<char>, Seq<char>, Seq<char>)>,
)
    decreases text.len() - at,
{
    if at < 0 || at > text.len() {
        (seq![], seq![])
    } else {
        match find_from(text, "<used "@, at) {
            None => (text.skip(at), seq![]),
            Some(s) => match find_from(text, seq!['>'], s) {
                None => (text.skip(at), seq![]),
                Some(g) => match find_from(text, used_shut(), g + 1) {
                    None => (text.skip(at), seq![]),
                    Some(close) => {
                        proof {
                            lemma_find_from(text, "<used "@, at);
                            lemma_find_from(text, seq!['>'], s);
                            lemma_find_from(text, used_shut(), g + 1);
                        }
                        let (p, us) = lookups_from(text, close + 7);
                        (
                            text.subrange(at, s) + p,
                            seq![lookup_of(text.subrange(s, g + 1), text.subrange(g + 1, close))]
                                + us,
                        )
                    },
                },
            },
        }
    }
}

/// A reply with the record of what was looked up lifted out of it, trimmed,
/// and what was looked up.
pub open spec fn lookups_of(reply: Seq<char>) -> (Seq<char>, Seq<(Seq<char>, Seq<char>, Seq<char>)>) {
    let (p, us) = lookups_from(reply, 0);
    (trim(p), us)
}

/// Lift the record of what was looked up out of a reply.
pub fn lookups(reply: &str) -> (r: (String, Vec<Lookup>))
    ensures
        r.0@ == lookups_of(reply@).0,
        lookups_view(r.1@) == lookups_of(reply@).1,
{
    let (p, us) = lookups_chars(&chars_of(reply));
    (string_of(&p), us)
}

/// Lift the record of what was looked up out of a reply.
pub fn lookups_chars(text: &[char]) -> (r: (Vec<char>, Vec<Lookup>))
    ensures
        r.0@ == lookups_of(text@).0,
        lookups_view(r.1@) == lookups_of(text@).1,
{
    let len = text.len();
    let open = chars_of("<used ");
    let gt = vec!['>'];
    assert(gt@ == seq!['>']);
    let shut = vec!['<', '/', 'u', 's', 'e', 'd', '>'];
    assert(shut@ == used_shut());
    let mut prose: Vec<char> = Vec::new();
    let mut used: Vec<Lookup> = Vec::new();
    let mut at: usize = 0;
    loop
        invariant
            at <= len,
            len == text@.len(),
            open@ == "<used "@,
            gt@ == seq!['>'],
            shut@ == used_shut(),
            lookups_from(text@, 0) == (
                prose@ + lookups_from(text@, at as int).0,
                lookups_view(used@) + lookups_from(text@, at as int).1,
            ),
        decreases len - at,
    {
        let s = match find_at(text, &open, at) {
            Some(s) => s,
            None => return lookups_end(text, at, prose, used),
        };
        proof {
            lemma_find_from(text@, open@, at as int);
        }
        let g = match find_at(text, &gt, s) {
            Some(g) => g,
            None => return lookups_end(text, at, prose, used),
        };
        proof {
            lemma_find_from(text@, gt@, s as int);
        }
        let close = match find_at(text, &shut, g + 1) {
            Some(c) => c,
            None => return lookups_end(text, at, prose, used),
        };
        proof {
            lemma_find_from(text@, shut@, g + 1);
        }
        let ghost bp = prose@;
        let ghost bu = lookups_view(used@);
        let part = slice(text, at, s);
        push_all(&mut prose, &part);
        let tag = slice(text, s, g + 1);
        let inner = slice(text, g + 1, close);
        let tool = match attr(&tag, "tool") {
            Some(t) => string_of(&t),
            None => String::new(),
        };
        let arg = match attr(&tag, "arg") {
            Some(a) => string_of(&a),
            None => String::new(),
        };
        let l = Lookup { tool, arg, result: string_of(&trimmed(&inner)) };
        used.push(l);
        assert(lookups_view(used@) =~= bu.push(l@));
        let ghost rest = lookups_from(text@, close + 7);
        assert(prose@ + rest.0 =~= bp + (text@.subrange(at as int, s as int) + rest.0));
        assert(lookups_view(used@) + rest.1 =~= bu + (seq![l@] + rest.1));
        at = close + 7;
    }
}

/// The last of a reply once no more lookups are to be found in it.
fn lookups_end(text: &[char], at: usize, prose: Vec<char>, used: Vec<Lookup>) -> (r: (Vec<char>, Vec<Lookup>))
    requires
        at <= text@.len(),
        lookups_from(text@, at as int) == (text@.skip(at as int), Seq::<(Seq<char>, Seq<char>, Seq<char>)>::empty()),
        lookups_from(text@, 0) == (
            prose@ + lookups_from(text@, at as int).0,
            lookups_view(used@) + lookups_from(text@, at as int).1,
        ),
    ensures
        r.0@ == lookups_of(text@).0,
        lookups_view(r.1@) == lookups_of(text@).1,
{
    let mut prose = prose;
    let tail = slice(text, at, text.len());
    push_all(&mut prose, &tail);
    assert(tail@ =~= text@.skip(at as int));
    assert(lookups_view(used@) + Seq::<(Seq<char>, Seq<char>, Seq<char>)>::empty() =~= lookups_view(used@));
    (trimmed(&prose), used)
}

/// What one turn comes to on the clipboard: what is on the screen, so a
/// reply's record of what it looked up is left out.
pub open spec fn copyable_of(turn: (bool, Seq<char>)) -> Seq<char> {
    if turn.0 {
        trim(turn.1)
    } else {
        trim(lookups_of(turn.1).0)
    }
}

/// What one turn comes to on the clipboard.
pub fn copyable(turn: &Turn) -> (r: String)
    ensures
        r@ == copyable_of(turn@),
{
    let text = chars_of(turn.text.as_str());
    if turn.mine {
        return string_of(&trimmed(&text));
    }
    let (p, _) = lookups_chars(&text);
    string_of(&trimmed(&p))
}

/// What to call a project out loud, including the one with no name.
pub open spec fn called_of(project: Seq<char>) -> Seq<char> {
    if project.len() == 0 {
        "THE VAULT"@
    } else {
        upper_of(project)
    }
}

/// What to call a project out loud, including the one with no name.
pub fn called(project: &str) -> (r: String)
    ensures
        r@ == called_of(project@),
{
    if project.is_empty() {
        proof {
            reveal_strlit("THE VAULT");
        }
        "THE VAULT".to_string()
    } else {
        uppercase(project)
    }
}

// -------------------------------------------------------------- on disk

#[verifier::external_type_specification]
#[verifier::external_body]
pub struct ExPathBuf(std::path::PathBuf);

#[verifier::external_type_specification]
#[verifier::external_body]
pub struct ExSystemTime(std::time::SystemTime);

/// `PathBuf::clone`: claimed to give back a path equal to the one cloned.
pub assume_specification[ <std::path::PathBuf as Clone>::clone ](p: &std::path::PathBuf) -> (r: std::path::PathBuf)
    ensures
        r == *p,
;

/// Where a project's conversations live: under the vault, in a dot
/// directory the vault does not read, one folder per project; the loose
/// notes' conversations in that directory itself.
pub fn folder(dir: &std::path::PathBuf, project: &str) -> (r: std::path::PathBuf)
    ensures
        r == if project@.len() == 0 {
            crate::dialog::joined_of(*dir, ".chats"@)
        } else {
            crate::dialog::joined_of(crate::dialog::joined_of(*dir, ".chats"@), project@)
        },
{
    let home = crate::dialog::joined_path(dir, ".chats");
    if chars_of(project).len() == 0 {
        home
    } else {
        crate::dialog::joined_path(&home, project)
    }
}

/// A conversation on disk, as the picker lists it.
pub struct Filed {
    pub path: std::path::PathBuf,
    pub title: String,
    /// Turns in it, so a chat can say how long it is.
    pub turns: usize,
    pub when: std::time::SystemTime,
}

/// What the chat wants the application to do about it.
pub enum Outcome {
    /// Nothing to do.
    Nothing,
    /// Send the conversation as it stands.
    Ask,
    /// Give up on the answer that is on its way.
    Stop,
    /// Turn looking things up on, or off.
    Web,
    /// Something changed that should be written down.
    Save,
    /// Put this change into the project.
    Apply(Change),
    /// Take it away.
    Close,
}

/// How long ago, in the roundest terms that are still true, given how many
/// seconds have passed - or none, when the moment is still to come.
pub open spec fn ago_of(gap: Option<u64>) -> Seq<char> {
    match gap {
        None => "just now"@,
        Some(secs) => if secs <= 59 {
            "just now"@
        } else if secs <= 3599 {
            decimal((secs / 60) as nat) + "m ago"@
        } else if secs <= 86399 {
            decimal((secs / 3600) as nat) + "h ago"@
        } else {
            decimal((secs / 86400) as nat) + "d ago"@
        },
    }
}

/// How long ago, in the roundest terms that are still true.
///
/// Given the seconds since the moment, as the clock tells them, or nothing
/// when the moment is still to come.
pub fn ago(gap: Option<u64>) -> (r: String)
    ensures
        r@ == ago_of(gap),
{
    let mut out: Vec<char> = Vec::new();
    match gap {
        None => push_str(&mut out, "just now"),
        Some(secs) => if secs <= 59 {
            push_str(&mut out, "just now");
        } else if secs <= 3599 {
            write_u64(&mut out, secs / 60);
            push_str(&mut out, "m ago");
        } else if secs <= 86399 {
            write_u64(&mut out, secs / 3600);
            push_str(&mut out, "h ago");
        } else {
            write_u64(&mut out, secs / 86400);
            push_str(&mut out, "d ago");
        },
    }
    assert(out@ =~= ago_of(gap));
    string_of(&out)
}

// ------------------------------------------------------------- transcripts

/// A turn marker, where it is one.
pub open spec fn is_marker(t: Seq<char>) -> bool {
    t == mine_marker() || t == theirs_marker()
}

/// The turn a body makes, added if there is anything in it.
pub open spec fn pushed(turns: Seq<(bool, Seq<char>)>, mine: bool, body: Seq<char>) -> Seq<(bool, Seq<char>)> {
    if trim(body).len() > 0 {
        turns.push((mine, trim(body)))
    } else {
        turns
    }
}

/// Where reading a transcript has got to: the turns so far, whose turn is
/// open, what it says so far, whether a turn has opened, and whether a code
/// fence is open.
#[verifier::ext_equal]
pub struct Reading {
    pub turns: Seq<(bool, Seq<char>)>,
    pub mine: bool,
    pub body: Seq<char>,
    pub started: bool,
    pub in_code: bool,
}

/// Reading one more line of a transcript. A marker only counts outside a
/// code fence; before the first marker, lines belong to no turn.
pub open spec fn read_line(r: Reading, line: Seq<char>) -> Reading {
    let t = trim_end(line);
    let code = if is_fence(t) {
        !r.in_code
    } else {
        r.in_code
    };
    if !code && is_marker(t) {
        Reading {
            turns: if r.started {
                pushed(r.turns, r.mine, r.body)
            } else {
                r.turns
            },
            mine: t == mine_marker(),
            body: seq![],
            started: true,
            in_code: code,
        }
    } else if r.started {
        Reading { body: r.body + line + seq!['\n'], in_code: code, ..r }
    } else {
        Reading { in_code: code, ..r }
    }
}

/// Reading the first `n` lines.
pub open spec fn read_lines(ls: Seq<Seq<char>>, n: int) -> Reading
    decreases n,
{
    if n <= 0 {
        Reading { turns: seq![], mine: true, body: seq![], started: false, in_code: false }
    } else {
        read_line(read_lines(ls, n - 1), ls[n - 1])
    }
}

/// A transcript read back into turns.
pub open spec fn parse_of(text: Seq<char>) -> Seq<(bool, Seq<char>)> {
    let ls = lines(text);
    let r = read_lines(ls, ls.len() as int);
    if r.started {
        pushed(r.turns, r.mine, r.body)
    } else {
        r.turns
    }
}

/// Add the turn a body makes, if there is anything in it.
fn push(turns: &mut Vec<Turn>, mine: bool, body: &[char])
    ensures
        crate::llm::turns_view(final(turns)@) == pushed(crate::llm::turns_view(old(turns)@), mine, body@),
{
    let text = trimmed(body);
    if text.len() > 0 {
        let ghost before = crate::llm::turns_view(turns@);
        let t = Turn { mine, text: string_of(&text) };
        turns.push(t);
        assert(crate::llm::turns_view(turns@) =~= before.push(t@));
    }
}

/// Read a transcript back into turns.
///
/// A marker only counts at the top level: inside a fenced code block it is
/// code, which is what makes it safe to write a conversation about markdown
/// into a markdown file.
pub fn parse(text: &str) -> (r: Vec<Turn>)
    ensures
        crate::llm::turns_view(r@) == parse_of(text@),
{
    let t = chars_of(text);
    let ls = lines_of(&t);
    let ghost all = lines(t@);
    let mine_m = chars_of("## you");
    let theirs_m = chars_of("## assistant");
    let mut turns: Vec<Turn> = Vec::new();
    let mut mine = true;
    let mut body: Vec<char> = Vec::new();
    let mut started = false;
    let mut in_code = false;
    let mut i: usize = 0;
    assert(read_lines(all, 0) =~= (Reading {
        turns: crate::llm::turns_view(turns@),
        mine,
        body: body@,
        started,
        in_code,
    }));
    while i < ls.len()
        invariant
            i <= ls@.len(),
            ls@.len() == all.len(),
            forall|j: int| 0 <= j < ls@.len() ==> #[trigger] ls@[j]@ == all[j],
            mine_m@ == mine_marker(),
            theirs_m@ == theirs_marker(),
            read_lines(all, i as int) == (Reading {
                turns: crate::llm::turns_view(turns@),
                mine,
                body: body@,
                started,
                in_code,
            }),
        decreases ls.len() - i,
    {
        let line = &ls[i];
        assert(line@ == all[i as int]);
        let tl = trimmed_end(line);
        if fence_line(&tl) {
            in_code = !in_code;
        }
        let is_mine = same(&tl, &mine_m);
        let marker = is_mine || same(&tl, &theirs_m);
        if !in_code && marker {
            if started {
                push(&mut turns, mine, &body);
            }
            body = Vec::new();
            mine = is_mine;
            started = true;
        } else if started {
            push_all(&mut body, line);
            body.push('\n');
        }
        assert(read_lines(all, i + 1) =~= (Reading {
            turns: crate::llm::turns_view(turns@),
            mine,
            body: body@,
            started,
            in_code,
        }));
        i = i + 1;
    }
    if started {
        push(&mut turns, mine, &body);
    }
    turns
}

/// A turn's text with what would look like the start of the next turn - a
/// marker at the top level - moved in by a space, trimmed at the end.
pub open spec fn fenced_lines(ls: Seq<Seq<char>>, n: int) -> (Seq<char>, bool)
    decreases n,
{
    if n <= 0 {
        (seq![], false)
    } else {
        let (out, in_code) = fenced_lines(ls, n - 1);
        let line = ls[n - 1];
        let t = trim_end(line);
        let code = if is_fence(t) {
            !in_code
        } else {
            in_code
        };
        let lead = if !code && is_marker(t) {
            seq![' ']
        } else {
            seq![]
        };
        (out + lead + line + seq!['\n'], code)
    }
}

/// Stop a turn's own text from looking like the start of the next one.
pub open spec fn fence_markers_of(text: Seq<char>) -> Seq<char> {
    let ls = lines(text);
    trim_end(fenced_lines(ls, ls.len() as int).0)
}

/// Stop a turn's own text from looking like the start of the next one.
///
/// A model asked about this very format will happily write `## assistant` in
/// its answer. One space in front of it is still a heading to nobody and reads
/// the same to everybody.
pub fn fence_markers(text: &str) -> (r: String)
    ensures
        r@ == fence_markers_of(text@),
{
    let t = chars_of(text);
    let ls = lines_of(&t);
    let ghost all = lines(t@);
    let mine_m = chars_of("## you");
    let theirs_m = chars_of("## assistant");
    let mut out: Vec<char> = Vec::new();
    let mut in_code = false;
    let mut i: usize = 0;
    while i < ls.len()
        invariant
            i <= ls@.len(),
            ls@.len() == all.len(),
            forall|j: int| 0 <= j < ls@.len() ==> #[trigger] ls@[j]@ == all[j],
            mine_m@ == mine_marker(),
            theirs_m@ == theirs_marker(),
            fenced_lines(all, i as int) == (out@, in_code),
        decreases ls.len() - i,
    {
        let line = &ls[i];
        assert(line@ == all[i as int]);
        let tl = trimmed_end(line);
        if fence_line(&tl) {
            in_code = !in_code;
        }
        let ghost before = out@;
        let marker = same(&tl, &mine_m) || same(&tl, &theirs_m);
        if !in_code && marker {
            out.push(' ');
        }
        push_all(&mut out, line);
        out.push('\n');
        assert(out@ =~= before + (if !in_code && is_marker(tl@) {
            seq![' ']
        } else {
            seq![]
        }) + line@ + seq!['\n']);
        i = i + 1;
    }
    string_of(&trimmed_end(&out))
}

/// The first line of a text that has something on it.
pub open spec fn first_filled(ls: Seq<Seq<char>>) -> Seq<char>
    decreases ls.len(),
{
    if ls.len() == 0 {
        seq![]
    } else if !blank(ls[0]) {
        ls[0]
    } else {
        first_filled(ls.drop_first())
    }
}

/// What a heading, a quote or a list item begins with.
pub open spec fn marks() -> Seq<char> {
    seq!['#', '>', '-', '*', ' ']
}

/// `s` with every leading character of the set taken off.
pub open spec fn trim_start_set(s: Seq<char>, set: Seq<char>) -> Seq<char>
    decreases s.len(),
{
    if s.len() > 0 && set.contains(s[0]) {
        trim_start_set(s.drop_first(), set)
    } else {
        s
    }
}

/// The first line of something, for a list that has one line to give it:
/// without its marks, and cut at the last space that fits when it is longer
/// than `room`.
pub open spec fn one_line_of(text: Seq<char>, room: nat) -> Seq<char> {
    let first = trim_start_set(trim(first_filled(lines(text))), marks());
    if first.len() <= room {
        first
    } else {
        let head = first.take(room as int);
        let cut = match rfind(head, seq![' ']) {
            Some(k) => k,
            None => head.len() as int,
        };
        trim_end(head.take(cut)) + "..."@
    }
}

/// The first line of something, for a list that has one line to give it.
pub fn one_line(text: &str, room: usize) -> (r: String)
    ensures
        r@ == one_line_of(text@, room as nat),
{
    let t = chars_of(text);
    let ls = lines_of(&t);
    let ghost all = lines(t@);
    let mut i: usize = 0;
    assert(all.skip(0) =~= all);
    while i < ls.len() && is_blank(&ls[i])
        invariant
            i <= ls@.len(),
            ls@.len() == all.len(),
            forall|j: int| 0 <= j < ls@.len() ==> #[trigger] ls@[j]@ == all[j],
            first_filled(all.skip(i as int)) == first_filled(all),
        decreases ls.len() - i,
    {
        assert(all.skip(i as int)[0] == ls@[i as int]@);
        assert(all.skip(i as int).drop_first() =~= all.skip(i + 1));
        i = i + 1;
    }
    let line = if i < ls.len() {
        assert(all.skip(i as int)[0] == ls@[i as int]@);
        slice(&ls[i], 0, ls[i].len())
    } else {
        assert(all.skip(i as int).len() == 0);
        Vec::new()
    };
    assert(line@ == first_filled(all));
    let tr = trimmed(&line);
    let mut k: usize = 0;
    let set = vec!['#', '>', '-', '*', ' '];
    assert(set@ == marks());
    assert(tr@.skip(0) =~= tr@);
    while k < tr.len() && crate::strs::has_ch(&set, tr[k])
        invariant
            k <= tr@.len(),
            set@ == marks(),
            trim_start_set(tr@.skip(k as int), marks()) == trim_start_set(tr@, marks()),
        decreases tr.len() - k,
    {
        assert(set@.contains(tr@[k as int]));
        assert(tr@.skip(k as int).drop_first() =~= tr@.skip(k + 1));
        k = k + 1;
    }
    let first = slice(&tr, k, tr.len());
    if k < tr.len() {
        assert(!marks().contains(tr@[k as int]));
    }
    assert(first@ == trim_start_set(tr@, marks()));
    if first.len() <= room {
        return string_of(&first);
    }
    let head = slice(&first, 0, room);
    assert(head@ =~= first@.take(room as int));
    let sp = vec![' '];
    assert(sp@ == seq![' ']);
    let cut = match rfind_in(&head, &sp) {
        Some(c) => c,
        None => head.len(),
    };
    proof {
        crate::strs::lemma_rfind(head@, sp@);
    }
    let kept = slice(&head, 0, cut);
    assert(kept@ =~= head@.take(cut as int));
    let mut out = trimmed_end(&kept);
    push_str(&mut out, "...");
    string_of(&out)
}


// ------------------------------------------------------------ file names

/// Each character of a title kept when it is a letter or a digit, and a
/// dash where it is not.
pub open spec fn dashed(t: Seq<char>) -> Seq<char> {
    t.map_values(|c: char| if crate::strs::alnum_of(c) {
        c
    } else {
        '-'
    })
}

/// The first `n` pieces that are not empty.
pub open spec fn filled(parts: Seq<Seq<char>>, n: int) -> Seq<Seq<char>>
    decreases n,
{
    if n <= 0 {
        seq![]
    } else {
        filled(parts, n - 1) + if parts[n - 1].len() > 0 {
            seq![parts[n - 1]]
        } else {
            seq![]
        }
    }
}

/// What a conversation is filed as, before the `.md`: the letters and
/// digits of its title in lowercase, each run of anything else one dash,
/// no dash at either end, no more than forty characters; `chat`, when the
/// title has no letter or digit.
pub open spec fn slug_of(title: Seq<char>) -> Seq<char> {
    let parts = crate::strs::split_on(dashed(title), "-"@);
    let s = crate::strs::lower_of(join(filled(parts, parts.len() as int), "-"@));
    if s.len() == 0 {
        "chat"@
    } else if s.len() <= 40 {
        s
    } else {
        s.take(40)
    }
}

/// The `n`th name tried for a conversation: the slug, and from the second
/// on a dash and the number.
pub open spec fn nth_name_of(slug: Seq<char>, n: u64) -> Seq<char> {
    if n == 0 {
        slug + ".md"@
    } else {
        slug + "-"@ + decimal(n as nat) + ".md"@
    }
}

/// What a conversation is filed as, before the `.md`.
pub fn slug(title: &str) -> (r: String)
    ensures
        r@ == slug_of(title@),
{
    let t = chars_of(title);
    let mut d: Vec<char> = Vec::new();
    let mut i: usize = 0;
    while i < t.len()
        invariant
            i <= t@.len(),
            d@ == dashed(t@.take(i as int)),
        decreases t.len() - i,
    {
        let c = t[i];
        if crate::strs::alphanumeric(c) {
            d.push(c);
        } else {
            d.push('-');
        }
        assert(d@ =~= dashed(t@.take(i + 1)));
        i = i + 1;
    }
    assert(t@.take(t@.len() as int) =~= t@);
    let dash = chars_of("-");
    proof {
        reveal_strlit("-");
    }
    let parts = crate::strs::split_at_each(&d, &dash);
    let ghost pv = crate::strs::split_on(d@, "-"@);
    let mut kept: Vec<Vec<char>> = Vec::new();
    let mut k: usize = 0;
    while k < parts.len()
        invariant
            k <= parts@.len(),
            parts@.len() == pv.len(),
            forall|j: int| 0 <= j < parts@.len() ==> #[trigger] parts@[j]@ == pv[j],
            views(kept@) == filled(pv, k as int),
        decreases parts.len() - k,
    {
        if parts[k].len() > 0 {
            let ghost before = views(kept@);
            kept.push(parts[k].clone());
            assert(views(kept@) =~= before + seq![pv[k as int]]);
        } else {
            assert(filled(pv, k + 1) =~= filled(pv, k as int));
        }
        k = k + 1;
    }
    let j = joined(&kept, &dash);
    let low = crate::strs::lower(&j);
    if low.len() == 0 {
        proof {
            reveal_strlit("chat");
        }
        String::from_str("chat")
    } else if low.len() <= 40 {
        string_of(&low)
    } else {
        string_of(&slice(&low, 0, 40))
    }
}

/// The `n`th name tried for a conversation.
pub fn nth_name(slug: &str, n: u64) -> (r: String)
    ensures
        r@ == nth_name_of(slug@, n),
{
    let mut out = chars_of(slug);
    if n > 0 {
        push_str(&mut out, "-");
        write_u64(&mut out, n);
    }
    push_str(&mut out, ".md");
    string_of(&out)
}
} // verus!
