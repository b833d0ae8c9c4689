use vstd::prelude::*;

use crate::text::{script_statements, split_script, split_statements, statements, views};
use crate::text::lemma_split_on_nonempty;

verus! {

/// What a session holds, as a reader sees it: the prompt shown before the
/// next interactive read, and the statements still to run, next first.
pub struct Session {
    pub prompt: Seq<char>,
    pub queue: Seq<Seq<char>>,
}

impl Session {
    /// A fresh interactive session: prompt `"> "`, nothing queued.
    pub open spec fn interactive() -> Session {
        Session { prompt: seq!['>', ' '], queue: Seq::empty() }
    }

    /// A session that replays `script`: empty prompt, all its statements queued.
    pub open spec fn scripted(script: Seq<char>) -> Session {
        Session { prompt: Seq::empty(), queue: script_statements(script) }
    }

    /// The same session with prompt `p`.
    pub open spec fn with_prompt(self, p: Seq<char>) -> Session {
        Session { prompt: p, queue: self.queue }
    }

    /// The same session with nothing queued.
    pub open spec fn cleared(self) -> Session {
        Session { prompt: self.prompt, queue: Seq::empty() }
    }

    /// The same session after its next statement was handed out.
    pub open spec fn popped(self) -> Session {
        Session { prompt: self.prompt, queue: self.queue.drop_first() }
    }

    /// The session after `line` was read and its first statement handed out:
    /// the rest of the line's statements are queued.
    pub open spec fn loaded(self, line: Seq<char>) -> Session {
        Session { prompt: self.prompt, queue: statements(line).drop_first() }
    }
}

/// After the first statement of a two-statement line was handed out, the
/// second waits in the queue; clearing the queue drops it, so the next
/// request finds nothing queued and reads a fresh line instead.
pub proof fn lemma_clear_drops_rest(v: Session, line: Seq<char>)
    requires
        statements(line).len() == 2,
    ensures
        v.loaded(line).queue == seq![statements(line)[1]],
        v.loaded(line).cleared().queue.len() == 0,
        v.loaded(line).cleared().prompt == v.prompt,
{
    assert(v.loaded(line).queue =~= seq![statements(line)[1]]);
}

/// Setting the prompt changes nothing but the prompt, and of several prompts
/// set in a row only the last counts.
pub proof fn lemma_prompt_only(v: Session, a: Seq<char>, b: Seq<char>)
    ensures
        v.with_prompt(a).queue == v.queue,
        v.with_prompt(a).prompt == a,
        v.with_prompt(a).with_prompt(b) == v.with_prompt(b),
{
}

/// What became of one read from the line source.
pub struct LineOutcome<E> {
    /// The entry to append to the history: the raw line as it was typed.
    pub history: Option<String>,
    /// What the caller receives: the line's first statement, or the signal
    /// that ended the read.
    pub input: Result<String, E>,
}

/// The input side of a shell session: the prompt and the statements still
/// queued from the last line read (or from a script).
pub struct Ui {
    prompt: String,
    /// Queued statements, the next one last.
    pending: Vec<String>,
}

impl View for Ui {
    type V = Session;

    closed spec fn view(&self) -> Session {
        Session { prompt: self.prompt@, queue: views(self.pending@).reverse() }
    }
}

/// `v` in reverse order.
fn reversed(v: Vec<String>) -> (r: Vec<String>)
    ensures
        views(r@) == views(v@).reverse(),
{
    let ghost orig = views(v@);
    let mut v = v;
    let mut r: Vec<String> = Vec::new();
    while v.len() > 0
        invariant
            views(v@) + views(r@).reverse() == orig,
        decreases v.len(),
    {
        let ghost before_v = views(v@);
        let ghost before_r = views(r@);
        let x = v.pop().unwrap();
        r.push(x);
        assert(views(v@) =~= before_v.drop_last());
        assert(views(r@) =~= before_r.push(x@));
        assert(views(r@).reverse() =~= seq![x@] + before_r.reverse());
        assert(before_v =~= views(v@).push(x@));
        assert(views(v@) + views(r@).reverse() =~= before_v + before_r.reverse());
    }
    assert(views(r@).reverse().reverse() =~= views(r@));
    assert(views(v@) =~= Seq::<Seq<char>>::empty());
    assert(orig =~= views(r@).reverse());
    assert(orig.reverse() =~= views(r@));
    r
}

impl Ui {
    /// Starts an interactive session with prompt `"> "` and nothing queued.
    pub fn new() -> (r: Ui)
        ensures
            r@ == Session::interactive(),
    {
        let prompt = "> ".to_owned();
        proof {
            broadcast use vstd::string::group_string_axioms;

            reveal_strlit("> ");
            assert(prompt@ =~= seq!['>', ' ']);
        }
        let r = Ui { prompt, pending: Vec::new() };
        assert(r@.queue =~= Seq::<Seq<char>>::empty());
        r
    }

    /// Starts a session that replays `script`: every statement of every line,
    /// in order, then `exit`; the prompt is empty.
    pub fn new_for_script(script: &str) -> (r: Ui)
        ensures
            r@ == Session::scripted(script@),
    {
        let all = split_script(script);
        let pending = reversed(all);
        let prompt = String::new();
        let r = Ui { prompt, pending };
        assert(views(pending@).reverse() =~= script_statements(script@)) by {
            assert(views(all@).reverse().reverse() =~= views(all@));
        }
        assert(r@.prompt =~= Seq::<char>::empty());
        r
    }

    /// Replaces the prompt shown before the next interactive read.
    pub fn set_prompt(&mut self, prompt: String)
        ensures
            final(self)@ == old(self)@.with_prompt(prompt@),
    {
        self.prompt = prompt;
    }

    /// The prompt to show before the next interactive read.
    pub fn prompt(&self) -> (r: &str)
        ensures
            r@ == self@.prompt,
    {
        self.prompt.as_str()
    }

    /// Whether a statement is queued, so that no line needs to be read.
    pub fn has_pending(&self) -> (r: bool)
        ensures
            r == (self@.queue.len() > 0),
    {
        self.pending.len() > 0
    }

    /// Drops every queued statement. A caller does this when a statement
    /// fails, so that the rest of its line does not run.
    pub fn clear_pending(&mut self)
        ensures
            final(self)@ == old(self)@.cleared(),
    {
        self.pending.clear();
        assert(self@.queue =~= Seq::<Seq<char>>::empty());
    }

    /// Hands out the next queued statement, or `None` where nothing is
    /// queued and a line must be read.
    pub fn next_pending(&mut self) -> (r: Option<String>)
        ensures
            old(self)@.queue.len() > 0 ==> {
                &&& r is Some
                &&& r->0@ == old(self)@.queue[0]
                &&& final(self)@ == old(self)@.popped()
            },
            old(self)@.queue.len() == 0 ==> r is None && final(self)@ == old(self)@,
    {
        let ghost q = views(self.pending@);
        let r = self.pending.pop();
        proof {
            if q.len() > 0 {
                assert(views(self.pending@) =~= q.drop_last());
                assert(q.drop_last().reverse() =~= q.reverse().drop_first());
            }
        }
        r
    }

    /// Takes the result of reading one line with this session's prompt.
    ///
    /// A line is recorded whole, as typed, for the history; its statements
    /// replace the queue and the first of them is handed out at once. A
    /// signal that ended the read (end of input, interrupt) is handed back
    /// as it came, with nothing recorded and the queue untouched.
    pub fn take_line<E>(&mut self, read: Result<String, E>) -> (r: LineOutcome<E>)
        ensures
            match read {
                Ok(line) => {
                    &&& r.history == Some(line)
                    &&& r.input is Ok
                    &&& r.input->Ok_0@ == statements(line@)[0]
                    &&& final(self)@ == old(self)@.loaded(line@)
                },
                Err(e) => {
                    &&& r.history is None
                    &&& r.input == Err::<String, E>(e)
                    &&& final(self)@ == old(self)@
                },
            },
    {
        match read {
            Ok(line) => {
                let stmts = split_statements(line.as_str());
                proof {
                    lemma_split_on_nonempty(line@, crate::text::DELIMITER);
                }
                self.pending = reversed(stmts);
                let ghost q = views(self.pending@);
                let first = match self.pending.pop() {
                    Some(s) => s,
                    None => String::new(),
                };
                proof {
                    assert(views(self.pending@) =~= q.drop_last());
                    assert(q.drop_last().reverse() =~= q.reverse().drop_first());
                    assert(q.reverse() =~= statements(line@)) by {
                        assert(views(stmts@).reverse().reverse() =~= views(stmts@));
                    }
                }
                LineOutcome { history: Some(line), input: Ok(first) }
            },
            Err(e) => LineOutcome { history: None, input: Err(e) },
        }
    }
}

} // verus!
