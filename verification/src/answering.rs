//! Answering one question, running whatever tools it asks for on the way.
//!
//! The loop is about a question that took a few steps, not about language
//! models, so it is decided here: what to put to the model next, which tools
//! to run, and when the answer is in. Putting the question and running the
//! tools are the application's part; it hands back what came of them.
use vstd::prelude::*;

use crate::llm::{
    calls, calls_of, calls_view, to_ascii, to_ascii_of, turns_view, without_machinery,
    without_machinery_of, written_of, Ask, Reply, Tool, Turn, Used,
};
use crate::strs::{chars_of, join, joined, push_all, push_str, same, string_of, texts, trim, trim_end, trimmed, trimmed_end};

verus! {

/// How many tools one question may run before it is told to answer.
pub const STEPS: u8 = 12;

/// Each lookup as its tool, argument and result.
pub open spec fn used_views(v: Seq<Used>) -> Seq<(Seq<char>, Seq<char>, Seq<char>)> {
    v.map_values(|u: Used| (u.tool@, u.arg@, u.result@))
}

/// An optional text as its characters.
pub open spec fn opt_text(o: Option<String>) -> Option<Seq<char>> {
    match o {
        Some(s) => Some(s@),
        None => None,
    }
}

/// Whether `a` is the question `base` with these turns, with its tools or
/// without, and nothing to put in front of it.
pub open spec fn asks(a: Ask, base: Ask, turns: Seq<(bool, Seq<char>)>, tools: bool) -> bool {
    &&& a.source@ == base.source@
    &&& a.request@ == base.request@
    &&& turns_view(a.turns@) == turns
    &&& opt_text(a.within) == opt_text(base.within)
    &&& a.file@ == base.file@
    &&& a.vault@ == base.vault@
    &&& a.tools@ == if tools {
        base.tools@
    } else {
        Seq::<Tool>::empty()
    }
    &&& a.since is None
    &&& a.web_off == base.web_off
}

/// The conversation as first put: what moved since the project was written
/// out goes in front of the newest question, once, when the newest turn is a
/// question.
pub open spec fn first_turns(turns: Seq<(bool, Seq<char>)>, since: Option<Seq<char>>) -> Seq<(bool, Seq<char>)> {
    match since {
        Some(moved) => if turns.len() > 0 && turns.last().0 {
            turns.update(turns.len() - 1, (true, moved + "\n\n---\n\n"@ + turns.last().1))
        } else {
            turns
        },
        None => turns,
    }
}

/// What was said so far with one more pass kept: its prose, when there is
/// any and it has not been said already.
pub open spec fn kept(so_far: Seq<Seq<char>>, said: Seq<char>) -> Seq<Seq<char>> {
    let plain = without_machinery_of(said);
    if plain.len() > 0 && !so_far.contains(plain) {
        so_far.push(plain)
    } else {
        so_far
    }
}

/// Every lookup written out, in order.
pub open spec fn all_written(used: Seq<(Seq<char>, Seq<char>, Seq<char>)>) -> Seq<char>
    decreases used.len(),
{
    if used.len() == 0 {
        seq![]
    } else {
        all_written(used.drop_last()) + written_of(used.last().0, used.last().1, used.last().2)
    }
}

/// What is said when nothing was.
pub const SILENT: &'static str = "It did not answer.";

/// What is said when only lookups were made.
pub const MUTE: &'static str = "It looked that up but did not say anything about it.";

/// What is said when a question at its last pass comes to nothing.
pub const LOST: &'static str = "I looked those up but could not put an answer together.";

/// The answer: everything looked up, then everything said, in the order it
/// was said, the last part with it unless it was said already; and a line
/// saying so when nothing was said at all.
pub open spec fn assembled_of(used: Seq<(Seq<char>, Seq<char>, Seq<char>)>, so_far: Seq<Seq<char>>, last: Seq<char>) -> Seq<char> {
    let l = trim(last);
    let parts = if l.len() > 0 && !so_far.contains(l) {
        so_far.push(l)
    } else {
        so_far
    };
    let parts = if parts.len() == 0 {
        seq![
            if used.len() == 0 {
                SILENT@
            } else {
                MUTE@
            },
        ]
    } else {
        parts
    };
    all_written(used) + join(parts, "\n\n"@)
}

/// Whether this call was made already.
pub open spec fn was_used(used: Seq<(Seq<char>, Seq<char>, Seq<char>)>, c: (Seq<char>, Seq<char>)) -> bool {
    exists|i: int| 0 <= i < used.len() && (#[trigger] used[i]).0 == c.0 && used[i].1 == c.1
}

/// The first `n` calls worth running: not answered already, and not asked
/// twice in the same breath.
pub open spec fn fresh_upto(
    asked: Seq<(Seq<char>, Seq<char>)>,
    used: Seq<(Seq<char>, Seq<char>, Seq<char>)>,
    n: int,
) -> Seq<(Seq<char>, Seq<char>)>
    decreases n,
{
    if n <= 0 {
        seq![]
    } else {
        let f = fresh_upto(asked, used, n - 1);
        let c = asked[n - 1];
        if was_used(used, c) || f.contains(c) {
            f
        } else {
            f.push(c)
        }
    }
}

/// What the model is told when it is to answer with what it has.
pub open spec fn nudge(looping: bool) -> Seq<char> {
    (if looping {
        LOOPED@
    } else {
        CEILING@
    }) + NOW@
}

/// Said when it asks again for what it has.
pub const LOOPED: &'static str = "You have already looked that up, and the answer is above.";

/// Said when it has looked up as much as there is time for.
pub const CEILING: &'static str = "That is as much looking up as there is time for.";

/// What follows either.
pub const NOW: &'static str = " Answer now, from what you already have above, and do not look \
             anything else up - there is nothing left to look up with. If you were \
             asked to write or change a file, write the block for it now, with the \
             values you have. Plain words and the block, nothing else.";

/// The tools' answers as the turn that hands them back.
pub open spec fn responses(results: Seq<Seq<char>>) -> Seq<char>
    decreases results.len(),
{
    if results.len() == 0 {
        seq![]
    } else {
        responses(results.drop_last()) + "<tool_response>\n"@ + results.last() + "\n</tool_response>\n"@
    }
}

/// A question being answered.
pub struct Answering {
    /// The question, with nothing left to put in front of it.
    ask: Ask,
    turns: Vec<Turn>,
    used: Vec<Used>,
    step: u8,
    so_far: Vec<String>,
    /// Told to answer with what it has: the next thing heard is the answer.
    finishing: bool,
    /// The calls handed out to be run.
    pending: Vec<(String, String)>,
    /// The pass that asked for them.
    said: String,
}

/// Where a question has got to.
pub struct AnsweringView {
    pub ask: Ask,
    pub turns: Seq<(bool, Seq<char>)>,
    pub used: Seq<(Seq<char>, Seq<char>, Seq<char>)>,
    pub step: int,
    pub so_far: Seq<Seq<char>>,
    pub finishing: bool,
    pub pending: Seq<(Seq<char>, Seq<char>)>,
    pub said: Seq<char>,
}

impl View for Answering {
    type V = AnsweringView;

    closed spec fn view(&self) -> AnsweringView {
        AnsweringView {
            ask: self.ask,
            turns: turns_view(self.turns@),
            used: used_views(self.used@),
            step: self.step as int,
            so_far: texts(self.so_far@),
            finishing: self.finishing,
            pending: calls_view(self.pending@),
            said: self.said@,
        }
    }
}

/// What to do next.
pub enum Next {
    /// Put this to the model, and hand back what it says.
    Ask(Ask),
    /// Run these tools, in order, and hand back what each said.
    Run(Vec<(String, String)>),
    /// The answer.
    Done(Reply),
}

/// What the model said, as text.
pub open spec fn reply_view(r: Reply) -> Result<Seq<char>, Seq<char>> {
    match r {
        Ok(t) => Ok(t@),
        Err(e) => Err(e@),
    }
}

/// What a pass that was heard leads to: the state after it, and either the
/// answer, the calls to run, or the question to put next.
pub enum Heard {
    Done(Result<Seq<char>, Seq<char>>),
    Run(Seq<(Seq<char>, Seq<char>)>),
    Ask(Seq<(bool, Seq<char>)>, bool),
}

/// What is done with a pass heard from the model, stopped or not.
pub open spec fn heard_of(s: AnsweringView, reply: Result<Seq<char>, Seq<char>>, stopped: bool) -> (AnsweringView, Heard) {
    match reply {
        Err(e) => (s, Heard::Done(Err(e))),
        Ok(text) => {
            let said = to_ascii_of(text);
            let plain = without_machinery_of(said);
            if s.finishing {
                let ending = if plain.len() == 0 && s.so_far.len() == 0 {
                    LOST@
                } else {
                    plain
                };
                (s, Heard::Done(Ok(assembled_of(s.used, s.so_far, ending))))
            } else if stopped {
                (s, Heard::Done(Ok(assembled_of(s.used, s.so_far, plain))))
            } else {
                let asked = if s.ask.tools@.len() == 0 {
                    seq![]
                } else {
                    calls_of(said)
                };
                if asked.len() == 0 {
                    (s, Heard::Done(Ok(assembled_of(s.used, s.so_far, plain))))
                } else {
                    let fresh = fresh_upto(asked, s.used, asked.len() as int);
                    let looping = fresh.len() == 0;
                    if s.step >= STEPS || looping {
                        let turns = s.turns.push((false, said)).push((true, nudge(looping)));
                        (
                            AnsweringView { turns, so_far: kept(s.so_far, said), finishing: true, ..s },
                            Heard::Ask(turns, false),
                        )
                    } else {
                        let room = STEPS - s.step;
                        let run = if fresh.len() <= room {
                            fresh
                        } else {
                            fresh.take(room)
                        };
                        (
                            AnsweringView { so_far: kept(s.so_far, said), pending: run, said, ..s },
                            Heard::Run(run),
                        )
                    }
                }
            }
        },
    }
}

/// A question with no tools is put once: what comes back from that one pass
/// is the answer - made plain text, the machinery taken out, trimmed - or,
/// when nothing is left of it, a line saying it did not answer; a failure
/// is the answer as it came. (A question as `start` leaves it: nothing
/// looked up, nothing said yet, not at its last pass.)
pub proof fn law_a_question_without_tools_is_put_once(
    s: AnsweringView,
    reply: Result<Seq<char>, Seq<char>>,
    stopped: bool,
)
    requires
        s.ask.tools@.len() == 0,
        s.used.len() == 0,
        s.so_far.len() == 0,
        !s.finishing,
    ensures
        heard_of(s, reply, stopped).1 == Heard::Done(
            match reply {
                Err(e) => Err(e),
                Ok(t) => Ok(
                    if trim(without_machinery_of(to_ascii_of(t))).len() == 0 {
                        SILENT@
                    } else {
                        trim(without_machinery_of(to_ascii_of(t)))
                    },
                ),
            },
        ),
{
    if let Ok(t) = reply {
        let l = trim(without_machinery_of(to_ascii_of(t)));
        let x = if l.len() == 0 {
            SILENT@
        } else {
            l
        };
        assert(all_written(seq![]) =~= Seq::<char>::empty());
        assert(seq![x].drop_last() =~= Seq::<Seq<char>>::empty());
        assert(join(seq![x], "\n\n"@) =~= x);
        assert(Seq::<Seq<char>>::empty().push(l) =~= seq![l]);
    }
}

/// Whether the next step is the one heard.
pub open spec fn next_is(n: Next, h: Heard, base: Ask) -> bool {
    match (n, h) {
        (Next::Done(r), Heard::Done(e)) => reply_view(r) == e,
        (Next::Run(v), Heard::Run(e)) => calls_view(v@) == e,
        (Next::Ask(a), Heard::Ask(turns, tools)) => asks(a, base, turns, tools),
        _ => false,
    }
}

/// The question put again with the tools' answers: what the model said, then
/// the answers as the turn after it.
pub open spec fn ran_of(s: AnsweringView, results: Seq<Seq<char>>) -> AnsweringView {
    AnsweringView {
        turns: s.turns.push((false, s.said)).push((true, trim_end(responses(results)))),
        used: s.used + Seq::new(
            s.pending.len(),
            |i: int| (s.pending[i].0, s.pending[i].1, results[i]),
        ),
        step: s.step + s.pending.len(),
        pending: seq![],
        ..s
    }
}

proof fn lemma_fresh(asked: Seq<(Seq<char>, Seq<char>)>, used: Seq<(Seq<char>, Seq<char>, Seq<char>)>, n: int)
    ensures
        forall|i: int| 0 <= i < fresh_upto(asked, used, n).len() ==> !was_used(used, #[trigger] fresh_upto(asked, used, n)[i]),
        forall|i: int, j: int|
            0 <= i < j < fresh_upto(asked, used, n).len() ==> #[trigger] fresh_upto(asked, used, n)[i]
                != #[trigger] fresh_upto(asked, used, n)[j],
    decreases n,
{
    if n > 0 {
        lemma_fresh(asked, used, n - 1);
        let f = fresh_upto(asked, used, n - 1);
        let c = asked[n - 1];
        if !(was_used(used, c) || f.contains(c)) {
            let g = f.push(c);
            assert forall|i: int, j: int| 0 <= i < j < g.len() implies g[i] != g[j] by {
                if j == g.len() - 1 {
                    if g[i] == g[j] {
                        assert(f[i] == c);
                        assert(f.contains(c));
                    }
                }
            }
        }
    }
}

/// No call is run twice: the calls handed out to be run are none of those
/// already answered, and no two of them are the same; nor do they take the
/// question past its ceiling of lookups.
pub proof fn law_no_call_runs_twice(s: AnsweringView, reply: Result<Seq<char>, Seq<char>>, stopped: bool)
    requires
        s.step + s.pending.len() <= STEPS,
        heard_of(s, reply, stopped).1 is Run,
    ensures
        forall|i: int|
            0 <= i < heard_of(s, reply, stopped).0.pending.len() ==> !was_used(
                s.used,
                #[trigger] heard_of(s, reply, stopped).0.pending[i],
            ),
        forall|i: int, j: int|
            0 <= i < j < heard_of(s, reply, stopped).0.pending.len() ==> #[trigger] heard_of(
                s,
                reply,
                stopped,
            ).0.pending[i] != #[trigger] heard_of(s, reply, stopped).0.pending[j],
        s.step + heard_of(s, reply, stopped).0.pending.len() <= STEPS,
{
    let text = reply->Ok_0;
    let said = to_ascii_of(text);
    let asked = calls_of(said);
    lemma_fresh(asked, s.used, asked.len() as int);
    let fresh = fresh_upto(asked, s.used, asked.len() as int);
    let run = heard_of(s, reply, stopped).0.pending;
    assert forall|i: int| 0 <= i < run.len() implies run[i] == fresh[i] by {}
}

/// A copy of the question with these turns, and its tools or none.
fn ask_with(base: &Ask, turns: Vec<Turn>, tools: bool) -> (r: Ask)
    requires
        base.since is None,
    ensures
        asks(r, *base, turns_view(turns@), tools),
{
    let mut ts: Vec<Tool> = Vec::new();
    if tools {
        let mut i: usize = 0;
        while i < base.tools.len()
            invariant
                i <= base.tools@.len(),
                ts@ == base.tools@.take(i as int),
            decreases base.tools.len() - i,
        {
            ts.push(base.tools[i]);
            assert(ts@ =~= base.tools@.take(i + 1));
            i = i + 1;
        }
        assert(base.tools@.take(base.tools@.len() as int) =~= base.tools@);
    } else {
        assert(ts@ =~= Seq::<Tool>::empty());
    }
    let within = match &base.within {
        Some(w) => Some(w.clone()),
        None => None,
    };
    Ask {
        source: base.source.clone(),
        request: base.request.clone(),
        turns,
        within,
        file: base.file.clone(),
        vault: base.vault.clone(),
        tools: ts,
        since: None,
        web_off: base.web_off,
    }
}

/// A copy of a conversation.
fn copied_turns(turns: &Vec<Turn>) -> (r: Vec<Turn>)
    ensures
        turns_view(r@) == turns_view(turns@),
{
    let mut out: Vec<Turn> = Vec::new();
    let mut i: usize = 0;
    while i < turns.len()
        invariant
            i <= turns@.len(),
            turns_view(out@) == turns_view(turns@).take(i as int),
        decreases turns.len() - i,
    {
        let ghost before = turns_view(out@);
        let t = Turn { mine: turns[i].mine, text: turns[i].text.clone() };
        assert(t@ == turns_view(turns@)[i as int]);
        out.push(t);
        assert(turns_view(out@) =~= before.push(turns_view(turns@)[i as int]));
        assert(turns_view(out@) =~= turns_view(turns@).take(i + 1));
        i = i + 1;
    }
    assert(turns_view(turns@).take(turns@.len() as int) =~= turns_view(turns@));
    out
}

/// Whether a text is among these.
fn among(v: &Vec<String>, t: &Vec<char>) -> (r: bool)
    ensures
        r == texts(v@).contains(t@),
{
    let mut i: usize = 0;
    while i < v.len()
        invariant
            i <= v@.len(),
            forall|k: int| 0 <= k < i ==> texts(v@)[k] != t@,
        decreases v.len() - i,
    {
        let c = chars_of(v[i].as_str());
        if same(&c, t) {
            assert(texts(v@)[i as int] == t@);
            return true;
        }
        i = i + 1;
    }
    false
}

/// Keep the part of a pass that is prose rather than machinery.
fn keep(so_far: &mut Vec<String>, said: &str)
    ensures
        texts(final(so_far)@) == kept(texts(old(so_far)@), said@),
{
    let plain = chars_of(without_machinery(said).as_str());
    if plain.len() > 0 && !among(so_far, &plain) {
        let ghost before = texts(so_far@);
        so_far.push(string_of(&plain));
        assert(texts(so_far@) =~= before.push(plain@));
    }
}

/// Everything looked up, then everything said.
fn assembled(used: &Vec<Used>, so_far: &Vec<String>, last: &str) -> (r: String)
    ensures
        r@ == assembled_of(used_views(used@), texts(so_far@), last@),
{
    let ghost uv = used_views(used@);
    let mut out: Vec<char> = Vec::new();
    let mut i: usize = 0;
    while i < used.len()
        invariant
            i <= used@.len(),
            uv == used_views(used@),
            out@ == all_written(uv.take(i as int)),
        decreases used.len() - i,
    {
        assert(uv.take(i + 1).drop_last() =~= uv.take(i as int));
        let w = chars_of(used[i].written().as_str());
        push_all(&mut out, &w);
        i = i + 1;
    }
    assert(uv.take(uv.len() as int) =~= uv);
    let mut parts: Vec<Vec<char>> = Vec::new();
    let mut k: usize = 0;
    while k < so_far.len()
        invariant
            k <= so_far@.len(),
            crate::strs::views(parts@) == texts(so_far@).take(k as int),
        decreases so_far.len() - k,
    {
        let ghost before = crate::strs::views(parts@);
        let c = chars_of(so_far[k].as_str());
        assert(c@ == texts(so_far@)[k as int]);
        parts.push(c);
        assert(crate::strs::views(parts@) =~= before.push(texts(so_far@)[k as int]));
        assert(crate::strs::views(parts@) =~= texts(so_far@).take(k + 1));
        k = k + 1;
    }
    assert(texts(so_far@).take(so_far@.len() as int) =~= texts(so_far@));
    let ghost sv = texts(so_far@);
    let ghost head = out@;
    let l = trimmed(&chars_of(last));
    if l.len() > 0 && !among(so_far, &l) {
        let ghost before = crate::strs::views(parts@);
        parts.push(l);
        assert(crate::strs::views(parts@) =~= before.push(trim(last@)));
    }
    let ghost p1 = if trim(last@).len() > 0 && !sv.contains(trim(last@)) {
        sv.push(trim(last@))
    } else {
        sv
    };
    assert(crate::strs::views(parts@) == p1);
    if parts.len() == 0 {
        let filler = if used.len() == 0 {
            chars_of(SILENT)
        } else {
            chars_of(MUTE)
        };
        let ghost before = crate::strs::views(parts@);
        parts.push(filler);
        assert(crate::strs::views(parts@) =~= seq![
            if uv.len() == 0 {
                SILENT@
            } else {
                MUTE@
            },
        ]);
    }
    let sep = chars_of("\n\n");
    let j = joined(&parts, &sep);
    push_all(&mut out, &j);
    assert(out@ == assembled_of(uv, sv, last@));
    string_of(&out)
}

/// The calls worth running: not answered already, not asked twice.
fn fresh_calls(asked: &Vec<(String, String)>, used: &Vec<Used>) -> (r: Vec<(String, String)>)
    ensures
        calls_view(r@) == fresh_upto(calls_view(asked@), used_views(used@), asked@.len() as int),
{
    let ghost av = calls_view(asked@);
    let ghost uv = used_views(used@);
    let mut out: Vec<(String, String)> = Vec::new();
    let mut n: usize = 0;
    while n < asked.len()
        invariant
            n <= asked@.len(),
            av == calls_view(asked@),
            uv == used_views(used@),
            calls_view(out@) == fresh_upto(av, uv, n as int),
        decreases asked.len() - n,
    {
        let ghost f = calls_view(out@);
        let t = chars_of(asked[n].0.as_str());
        let a = chars_of(asked[n].1.as_str());
        assert(av[n as int] == (t@, a@));
        let mut seen = false;
        let mut i: usize = 0;
        while i < used.len()
            invariant
                i <= used@.len(),
                uv == used_views(used@),
                seen == exists|k: int| 0 <= k < i && (#[trigger] uv[k]).0 == t@ && uv[k].1 == a@,
            decreases used.len() - i,
        {
            let ut = chars_of(used[i].tool.as_str());
            let ua = chars_of(used[i].arg.as_str());
            assert(uv[i as int] == (ut@, ua@, used@[i as int].result@));
            if same(&ut, &t) && same(&ua, &a) {
                seen = true;
            }
            i = i + 1;
        }
        let mut twice = false;
        let mut j: usize = 0;
        while j < out.len()
            invariant
                j <= out@.len(),
                f == calls_view(out@),
                twice == exists|k: int| 0 <= k < j && #[trigger] f[k] == (t@, a@),
            decreases out.len() - j,
        {
            let ot = chars_of(out[j].0.as_str());
            let oa = chars_of(out[j].1.as_str());
            assert(f[j as int] == (ot@, oa@));
            if same(&ot, &t) && same(&oa, &a) {
                twice = true;
            }
            j = j + 1;
        }
        proof {
            if f.contains((t@, a@)) {
                let k = choose|k: int| 0 <= k < f.len() && f[k] == (t@, a@);
                assert(f[k] == (t@, a@));
            }
        }
        if !seen && !twice {
            out.push((string_of(&t), string_of(&a)));
            assert(calls_view(out@) =~= f.push((t@, a@)));
        }
        n = n + 1;
    }
    out
}

impl Answering {
    /// Begin answering a question: what has moved since the project was
    /// written out is put in front of the newest question, once, and the
    /// question is what to put to the model first.
    pub fn start(ask: Ask) -> (r: (Answering, Ask))
        ensures
            r.0@.ask.since is None,
            asks(r.1, r.0@.ask, r.0@.turns, true),
            r.0@.turns == first_turns(turns_view(ask.turns@), opt_text(ask.since)),
            r.0@.used.len() == 0 && r.0@.step == 0 && r.0@.so_far.len() == 0,
            !r.0@.finishing && r.0@.pending.len() == 0,
            r.0@.ask.source@ == ask.source@ && r.0@.ask.request@ == ask.request@,
            opt_text(r.0@.ask.within) == opt_text(ask.within),
            r.0@.ask.file@ == ask.file@ && r.0@.ask.vault@ == ask.vault@,
            r.0@.ask.tools@ == ask.tools@ && r.0@.ask.web_off == ask.web_off,
            r.0@.ask.turns@ == ask.turns@,
    {
        let mut turns = copied_turns(&ask.turns);
        let ghost tv = turns_view(turns@);
        match &ask.since {
            Some(moved) => {
                let n = turns.len();
                if n > 0 && turns[n - 1].mine {
                    let mut text = chars_of(moved.as_str());
                    push_str(&mut text, "\n\n---\n\n");
                    push_all(&mut text, &chars_of(turns[n - 1].text.as_str()));
                    let ghost whole = turns@;
                    turns.pop();
                    turns.push(Turn { mine: true, text: string_of(&text) });
                    assert(turns_view(turns@) =~= tv.update(
                        tv.len() - 1,
                        (true, moved@ + "\n\n---\n\n"@ + tv.last().1),
                    ));
                }
            },
            None => {},
        }
        let within = match &ask.within {
            Some(w) => Some(w.clone()),
            None => None,
        };
        let mut tools: Vec<Tool> = Vec::new();
        let mut i: usize = 0;
        while i < ask.tools.len()
            invariant
                i <= ask.tools@.len(),
                tools@ == ask.tools@.take(i as int),
            decreases ask.tools.len() - i,
        {
            tools.push(ask.tools[i]);
            assert(tools@ =~= ask.tools@.take(i + 1));
            i = i + 1;
        }
        assert(ask.tools@.take(ask.tools@.len() as int) =~= ask.tools@);
        let base = Ask {
            source: ask.source,
            request: ask.request,
            turns: ask.turns,
            within,
            file: ask.file,
            vault: ask.vault,
            tools,
            since: None,
            web_off: ask.web_off,
        };
        let first = ask_with(&base, copied_turns(&turns), true);
        let a = Answering {
            ask: base,
            turns,
            used: Vec::new(),
            step: 0,
            so_far: Vec::new(),
            finishing: false,
            pending: Vec::new(),
            said: String::new(),
        };
        assert(used_views(a.used@) =~= Seq::<(Seq<char>, Seq<char>, Seq<char>)>::empty());
        assert(texts(a.so_far@) =~= Seq::<Seq<char>>::empty());
        assert(calls_view(a.pending@) =~= Seq::<(Seq<char>, Seq<char>)>::empty());
        (a, first)
    }

    /// Take in what the model said, stopped or not, and say what comes next:
    /// the answer, the tools to run, or the question to put again with the
    /// tools taken away.
    pub fn heard(&mut self, reply: Reply, stopped: bool) -> (r: Next)
        requires
            old(self)@.ask.since is None,
            old(self)@.step + old(self)@.pending.len() <= STEPS,
        ensures
            final(self)@ == heard_of(old(self)@, reply_view(reply), stopped).0,
            next_is(r, heard_of(old(self)@, reply_view(reply), stopped).1, old(self)@.ask),
            final(self)@.ask.since is None,
            final(self)@.step <= STEPS,
            final(self)@.step + final(self)@.pending.len() <= STEPS,
    {
        let text = match reply {
            Err(e) => {
                return Next::Done(Err(e));
            },
            Ok(t) => t,
        };
        let said = to_ascii(text.as_str());
        let plain = without_machinery(said.as_str());
        if self.finishing {
            let lost = plain.as_str().is_empty() && self.so_far.len() == 0;
            let answer = if lost {
                assembled(&self.used, &self.so_far, LOST)
            } else {
                assembled(&self.used, &self.so_far, plain.as_str())
            };
            return Next::Done(Ok(answer));
        }
        if stopped {
            return Next::Done(Ok(assembled(&self.used, &self.so_far, plain.as_str())));
        }
        let asked = if self.ask.tools.len() == 0 {
            let v: Vec<(String, String)> = Vec::new();
            assert(calls_view(v@) =~= Seq::<(Seq<char>, Seq<char>)>::empty());
            v
        } else {
            calls(said.as_str())
        };
        if asked.len() == 0 {
            return Next::Done(Ok(assembled(&self.used, &self.so_far, plain.as_str())));
        }
        let fresh = fresh_calls(&asked, &self.used);
        let looping = fresh.len() == 0;
        if self.step >= STEPS || looping {
            keep(&mut self.so_far, said.as_str());
            let ghost tv = turns_view(self.turns@);
            self.turns.push(Turn { mine: false, text: said });
            let mut nudged = if looping {
                chars_of(LOOPED)
            } else {
                chars_of(CEILING)
            };
            push_str(&mut nudged, NOW);
            self.turns.push(Turn { mine: true, text: string_of(&nudged) });
            assert(turns_view(self.turns@) =~= tv.push((false, to_ascii_of(text@))).push((true, nudge(looping))));
            self.finishing = true;
            let turns = copied_turns(&self.turns);
            return Next::Ask(ask_with(&self.ask, turns, false));
        }
        keep(&mut self.so_far, said.as_str());
        let room = (STEPS - self.step) as usize;
        let mut run: Vec<(String, String)> = Vec::new();
        let mut i: usize = 0;
        let ghost fv = calls_view(fresh@);
        while i < fresh.len() && i < room
            invariant
                i <= fresh@.len(),
                i <= room,
                fv == calls_view(fresh@),
                calls_view(run@) == fv.take(i as int),
            decreases fresh.len() - i,
        {
            let ghost before = calls_view(run@);
            let c = (fresh[i].0.clone(), fresh[i].1.clone());
            assert((c.0@, c.1@) == fv[i as int]);
            run.push(c);
            assert(calls_view(run@) =~= before.push(fv[i as int]));
            assert(calls_view(run@) =~= fv.take(i + 1));
            i = i + 1;
        }
        proof {
            if fv.len() <= room {
                assert(fv.take(fv.len() as int) =~= fv);
            }
        }
        let mut pend: Vec<(String, String)> = Vec::new();
        let mut k: usize = 0;
        while k < run.len()
            invariant
                k <= run@.len(),
                calls_view(pend@) == calls_view(run@).take(k as int),
            decreases run.len() - k,
        {
            let ghost before = calls_view(pend@);
            let c = (run[k].0.clone(), run[k].1.clone());
            assert((c.0@, c.1@) == calls_view(run@)[k as int]);
            pend.push(c);
            assert(calls_view(pend@) =~= before.push(calls_view(run@)[k as int]));
            assert(calls_view(pend@) =~= calls_view(run@).take(k + 1));
            k = k + 1;
        }
        assert(calls_view(run@).take(run@.len() as int) =~= calls_view(run@));
        self.pending = pend;
        self.said = said;
        Next::Run(run)
    }

    /// Take in what the tools said, one answer for each call handed out, in
    /// order; the question is put again with what the model said and the
    /// answers after it.
    pub fn ran(&mut self, results: Vec<String>) -> (r: Ask)
        requires
            old(self)@.ask.since is None,
            results@.len() == old(self)@.pending.len(),
            old(self)@.step + old(self)@.pending.len() <= STEPS,
        ensures
            final(self)@ == ran_of(old(self)@, texts(results@)),
            asks(r, final(self)@.ask, final(self)@.turns, true),
            final(self)@.step <= STEPS,
    {
        let ghost s = self@;
        let ghost rv = texts(results@);
        let mut answers: Vec<char> = Vec::new();
        let mut i: usize = 0;
        while i < self.pending.len()
            invariant
                i <= self.pending@.len(),
                self@.pending == s.pending,
                self@.ask == s.ask,
                self@.turns == s.turns,
                self@.said == s.said,
                self@.so_far == s.so_far,
                self@.finishing == s.finishing,
                results@.len() == s.pending.len(),
                rv == texts(results@),
                self.step as int == s.step + i,
                s.step + s.pending.len() <= STEPS,
                answers@ == responses(rv.take(i as int)),
                self@.used == s.used + Seq::new(i as nat, |k: int| (s.pending[k].0, s.pending[k].1, rv[k])),
            decreases self.pending.len() - i,
        {
            assert(rv.take(i + 1).drop_last() =~= rv.take(i as int));
            assert(s.pending[i as int] == (self.pending@[i as int].0@, self.pending@[i as int].1@));
            push_str(&mut answers, "<tool_response>\n");
            push_all(&mut answers, &chars_of(results[i].as_str()));
            push_str(&mut answers, "\n</tool_response>\n");
            let ghost before = used_views(self.used@);
            let u = Used {
                tool: self.pending[i].0.clone(),
                arg: self.pending[i].1.clone(),
                result: results[i].clone(),
            };
            self.used.push(u);
            assert(used_views(self.used@) =~= before.push((s.pending[i as int].0, s.pending[i as int].1, rv[i as int])));
            assert(s.used + Seq::new((i + 1) as nat, |k: int| (s.pending[k].0, s.pending[k].1, rv[k])) =~= (s.used
                + Seq::new(i as nat, |k: int| (s.pending[k].0, s.pending[k].1, rv[k]))).push(
                (s.pending[i as int].0, s.pending[i as int].1, rv[i as int]),
            ));
            self.step = self.step + 1;
            i = i + 1;
        }
        assert(rv.take(rv.len() as int) =~= rv);
        let ghost tv = turns_view(self.turns@);
        let said = self.said.clone();
        self.turns.push(Turn { mine: false, text: said });
        let t = trimmed_end(&answers);
        self.turns.push(Turn { mine: true, text: string_of(&t) });
        assert(turns_view(self.turns@) =~= tv.push((false, s.said)).push((true, trim_end(responses(rv)))));
        self.pending = Vec::new();
        assert(calls_view(self.pending@) =~= Seq::<(Seq<char>, Seq<char>)>::empty());
        let turns = copied_turns(&self.turns);
        ask_with(&self.ask, turns, true)
    }
}

} // verus!
