//! The whole-document transform as a state machine. The caller creates a
//! [`ContentRun`] for a text, asks it for the next step, runs each command it
//! is handed and feeds back what the command left behind, until the run is
//! done or has failed. Line-consuming markers are all replaced first; only
//! then is the result searched for inline markers.

use vstd::prelude::*;

use crate::command::{chars_of, prepare, prepared, string_of, wv, DirectiveError, Invocation};
use crate::output::{compose, format_chars, formatted, replacement, utf8_lossy, ExecOutput, Newlines};
use crate::text::push_range;
use crate::scanner::{
    find_markers, lemma_markers_placed, lemma_placed_end, markers, placed, splice, spliced, views, Directive,
};

verus! {

/// The preprocessor that runs the commands of `cmdrun` directives.
pub struct CmdRun;

impl CmdRun {
    /// Makes captured output ready for its place: inline, trailing whitespace
    /// is dropped and nothing else changes; in line-consuming mode with
    /// `Crlf`, line terminators become `"\r\n"` and output that is not empty
    /// ends with one.
    pub fn format_whitespace(s: &str, inline: bool, newlines: Newlines) -> (r: String)
        ensures
            r@ == formatted(s@, inline, newlines),
    {
        string_of(&format_chars(&chars_of(s), inline, newlines))
    }

    /// The text that replaces a directive once the command that `inv`
    /// describes has run and left `output`.
    pub fn command_outcome(inv: &Invocation, output: &ExecOutput, inline: bool, newlines: Newlines) -> (r: String)
        ensures
            r@ == replacement(
                inv.command@,
                inv.expected,
                output.code,
                formatted(utf8_lossy(output.stdout@), inline, newlines),
                utf8_lossy(output.stderr@),
            ),
    {
        string_of(&compose(inv.command.as_str(), inv.expected, output, inline, newlines))
    }

    /// Reads the text of a directive into the command it asks to run.
    pub fn parse_directive(raw: &str) -> (r: Result<Invocation, DirectiveError>)
        ensures
            r matches Ok(inv) ==> prepared(raw@) == Ok::<(Seq<char>, Option<i32>), DirectiveError>(
                (inv.command@, inv.expected),
            ),
            r matches Err(e) ==> prepared(raw@) == Err::<(Seq<char>, Option<i32>), DirectiveError>(e),
    {
        prepare(&chars_of(raw))
    }
}

/// What the caller does next.
#[derive(Debug)]
pub enum Step {
    /// Run this command and hand what it left to [`ContentRun::resume`].
    Run(Invocation),
    /// Every directive is replaced: this is the new text.
    Done(String),
    /// A directive could not be read: the whole transform fails.
    Failed(DirectiveError),
}

/// The transform of one text, part way through.
pub struct ContentRun {
    /// The text of the current pass.
    pub text: Vec<char>,
    /// Whether the current pass is the inline one.
    pub inline: bool,
    /// The markers of the current pass.
    pub found: Vec<Directive>,
    /// The replacements of the markers handled so far in this pass.
    pub reps: Vec<Vec<char>>,
    /// The command handed out and not yet resumed.
    pub pending: Option<Invocation>,
    /// How line-consuming output writes its terminators.
    pub newlines: Newlines,
    /// The text the run started from.
    pub origin: Ghost<Seq<char>>,
    /// The replacements of the line-consuming pass, once it is over.
    pub line_reps: Ghost<Seq<Seq<char>>>,
}

/// The command text of the `k`-th marker of a pass.
pub open spec fn command_text(t: Seq<char>, ds: Seq<(int, int, int, int)>, k: int) -> Seq<char> {
    t.subrange(ds[k].1, ds[k].2)
}

/// The text after the line-consuming pass over `t`, with `reps` for its
/// markers.
pub open spec fn after_line_pass(t: Seq<char>, reps: Seq<Seq<char>>) -> Seq<char> {
    spliced(t, markers(t, false), reps, 0)
}

impl ContentRun {
    /// The markers are those of the current text; in the inline pass that
    /// text is the start text after the line-consuming pass; a command
    /// handed out is the one that the next marker asks for.
    pub open spec fn wf(&self) -> bool {
        &&& views(self.found@) == markers(self.text@, self.inline)
        &&& placed(views(self.found@), 0, self.text@.len() as int)
        &&& self.reps@.len() <= self.found@.len()
        &&& !self.inline ==> self.text@ == self.origin@
        &&& self.inline ==> self.line_reps@.len() == markers(self.origin@, false).len()
            && self.text@ == after_line_pass(self.origin@, self.line_reps@)
        &&& self.pending matches Some(inv) ==> self.reps@.len() < self.found@.len() && prepared(
            command_text(self.text@, views(self.found@), self.reps@.len() as int),
        ) == Ok::<(Seq<char>, Option<i32>), DirectiveError>((inv.command@, inv.expected))
    }

    /// Starts the transform of `content`.
    pub fn new(content: &str, newlines: Newlines) -> (r: ContentRun)
        ensures
            r.wf(),
            r.origin@ == content@,
            r.text@ == content@,
            !r.inline,
            r.reps@.len() == 0,
            r.pending is None,
            r.newlines == newlines,
    {
        let text = chars_of(content);
        let found = find_markers(&text, false);
        proof {
            lemma_markers_placed(text@, 0, false);
        }
        ContentRun {
            text,
            inline: false,
            found,
            reps: Vec::new(),
            pending: None,
            newlines,
            origin: Ghost(content@),
            line_reps: Ghost(Seq::empty()),
        }
    }

    fn copy_invocation(inv: &Invocation) -> (r: Invocation)
        ensures
            r.command@ == inv.command@,
            r.expected == inv.expected,
    {
        Invocation { command: inv.command.clone(), expected: inv.expected }
    }

    fn step_in_pass(&mut self) -> (r: Step)
        requires
            old(self).wf(),
            old(self).pending is None,
            old(self).reps@.len() < old(self).found@.len(),
        ensures
            final(self).wf(),
            final(self).text == old(self).text,
            final(self).inline == old(self).inline,
            final(self).found == old(self).found,
            final(self).reps == old(self).reps,
            final(self).origin == old(self).origin,
            final(self).line_reps == old(self).line_reps,
            final(self).newlines == old(self).newlines,
            ({
                let raw = command_text(old(self).text@, views(old(self).found@), old(self).reps@.len() as int);
                match r {
                    Step::Run(inv) => final(self).pending matches Some(p) && p.command@ == inv.command@
                        && p.expected == inv.expected && prepared(raw) == Ok::<
                        (Seq<char>, Option<i32>),
                        DirectiveError,
                    >((inv.command@, inv.expected)),
                    Step::Failed(e) => final(self).pending is None && prepared(raw) == Err::<
                        (Seq<char>, Option<i32>),
                        DirectiveError,
                    >(e),
                    Step::Done(_) => false,
                }
            }),
    {
        let k = self.reps.len();
        let d = self.found[k];
        proof {
            assert(views(self.found@)[k as int] == d@);
            lemma_placed_index(views(self.found@), 0, self.text@.len() as int, k as int);
        }
        let mut raw: Vec<char> = Vec::new();
        push_range(&mut raw, &self.text, d.cmd_start, d.cmd_end);
        assert(raw@ =~= command_text(self.text@, views(self.found@), k as int));
        match prepare(&raw) {
            Ok(inv) => {
                self.pending = Some(ContentRun::copy_invocation(&inv));
                Step::Run(inv)
            },
            Err(e) => Step::Failed(e),
        }
    }
}

impl ContentRun {
    /// The next thing to do. While markers of the current pass are left, the
    /// next one is read into a command to run, or the transform fails. When
    /// the line-consuming pass is over, its markers are replaced and the
    /// inline pass starts on the result. When the inline pass is over too,
    /// the new text is ready.
    pub fn next_step(&mut self) -> (r: Step)
        requires
            old(self).wf(),
            old(self).pending is None,
        ensures
            final(self).wf(),
            final(self).origin == old(self).origin,
            final(self).newlines == old(self).newlines,
            old(self).reps@.len() < old(self).found@.len() ==> final(self).text == old(self).text
                && final(self).inline == old(self).inline && final(self).found == old(self).found
                && final(self).reps == old(self).reps && final(self).line_reps
                == old(self).line_reps,
            old(self).reps@.len() == old(self).found@.len() && !old(self).inline ==> final(self).inline
                && final(self).line_reps@ == wv(old(self).reps@) && final(self).reps@.len() == 0,
            old(self).inline ==> final(self).inline && final(self).line_reps == old(self).line_reps,
            old(self).inline && old(self).reps@.len() == old(self).found@.len() ==> final(self).text
                == old(self).text && final(self).found == old(self).found && final(self).reps
                == old(self).reps && final(self).pending is None,
            ({
                let t = final(self).text@;
                let ds = views(final(self).found@);
                let k = final(self).reps@.len() as int;
                match r {
                    Step::Run(inv) => k < ds.len() && (final(self).pending matches Some(p)
                        && p.command@ == inv.command@ && p.expected == inv.expected) && prepared(
                        command_text(t, ds, k),
                    ) == Ok::<(Seq<char>, Option<i32>), DirectiveError>(
                        (inv.command@, inv.expected),
                    ),
                    Step::Failed(e) => k < ds.len() && final(self).pending is None && prepared(
                        command_text(t, ds, k),
                    ) == Err::<(Seq<char>, Option<i32>), DirectiveError>(e),
                    Step::Done(s) => final(self).inline && k == ds.len() && final(self).pending is None
                        && s@ == spliced(t, ds, wv(final(self).reps@), 0),
                }
            }),
    {
        if self.reps.len() < self.found.len() {
            return self.step_in_pass();
        }
        if !self.inline {
            let next = splice(&self.text, &self.found, &self.reps);
            proof {
                self.line_reps = Ghost(wv(self.reps@));
            }
            self.text = next;
            self.inline = true;
            self.found = find_markers(&self.text, true);
            self.reps = Vec::new();
            proof {
                lemma_markers_placed(self.text@, 0, true);
            }
            if self.found.len() > 0 {
                return self.step_in_pass();
            }
        }
        let done = splice(&self.text, &self.found, &self.reps);
        Step::Done(string_of(&done))
    }

    /// Records what the command last handed out left behind: its
    /// replacement is the next one of the current pass.
    pub fn resume(&mut self, output: &ExecOutput)
        requires
            old(self).wf(),
            old(self).pending is Some,
        ensures
            final(self).wf(),
            final(self).pending is None,
            final(self).text == old(self).text,
            final(self).inline == old(self).inline,
            final(self).found == old(self).found,
            final(self).origin == old(self).origin,
            final(self).line_reps == old(self).line_reps,
            final(self).newlines == old(self).newlines,
            ({
                let p = old(self).pending->0;
                wv(final(self).reps@) == wv(old(self).reps@).push(
                    replacement(
                        p.command@,
                        p.expected,
                        output.code,
                        formatted(utf8_lossy(output.stdout@), old(self).inline, old(self).newlines),
                        utf8_lossy(output.stderr@),
                    ),
                )
            }),
    {
        let inv = self.pending.take().unwrap();
        let rep = compose(inv.command.as_str(), inv.expected, output, self.inline, self.newlines);
        let ghost old_reps = self.reps@;
        let ghost rv = rep@;
        self.reps.push(rep);
        assert(wv(self.reps@) =~= wv(old_reps).push(rv));
    }
}

/// Each marker of a placed sequence lies within the text, its command text
/// inside it.
pub proof fn lemma_placed_index(ds: Seq<(int, int, int, int)>, from: int, n: int, k: int)
    requires
        placed(ds, from, n),
        0 <= k < ds.len(),
    ensures
        from <= ds[k].0 <= ds[k].1 <= ds[k].2 <= ds[k].3 <= n,
    decreases ds.len(),
{
    if k > 0 {
        lemma_placed_index(ds.drop_first(), ds[0].3, n, k - 1);
    } else {
        lemma_placed_end(ds.drop_first(), ds[0].3, n);
    }
}

} // verus!
