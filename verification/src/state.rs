//! Per-session editor state: the kill ring, completion cycling, and the
//! state of one call to `readline`.

use crate::buffer::LineBuffer;
use crate::terminal::WinSize;
use crate::text::{string_of, chars_of};

use vstd::prelude::*;

verus! {

/// Number of kill-ring slots.
pub const RING_SIZE: usize = 8;

/// The views of the ring's slots.
pub open spec fn slot_views(s: Seq<Option<String>>) -> Seq<Option<Seq<char>>> {
    Seq::new(s.len(), |i: int| match s[i] {
        Some(t) => Some(t@),
        None => None,
    })
}

/// The slot before `i`, wrapping around.
pub open spec fn prev_slot(i: int) -> int {
    (i + RING_SIZE - 1) % (RING_SIZE as int)
}

/// Where rotating from slot `i` lands when `k` steps remain: the first
/// occupied slot walking backwards, or the slot reached after the last step
/// when none is occupied.
pub open spec fn rotate_from(slots: Seq<Option<Seq<char>>>, i: int, k: nat) -> int
    decreases k,
{
    if k == 0 {
        i
    } else {
        let j = prev_slot(i);
        if slots[j] is Some {
            j
        } else {
            rotate_from(slots, j, (k - 1) as nat)
        }
    }
}

/// A ring of killed text, cycled through with `ALT-Y`.
#[derive(Debug, Clone)]
pub struct KillRing {
    slots: Vec<Option<String>>,
    index: usize,
}

impl KillRing {
    /// The text in each slot.
    pub closed spec fn slots(&self) -> Seq<Option<Seq<char>>> {
        slot_views(self.slots@)
    }

    /// The slot `CTRL-Y` yanks from.
    pub closed spec fn index(&self) -> int {
        self.index as int
    }

    /// The ring has its fixed number of slots and points into them.
    pub closed spec fn wf(&self) -> bool {
        self.slots@.len() == RING_SIZE && self.index < RING_SIZE
    }

    /// What `wf` promises about the view.
    pub proof fn lemma_wf(&self)
        requires
            self.wf(),
        ensures
            self.slots().len() == RING_SIZE,
            0 <= self.index() < RING_SIZE,
    {
    }

    /// Creates an empty ring.
    pub fn new() -> (r: Self)
        ensures
            r.wf(),
            r.index() == 0,
            forall|i: int| 0 <= i < RING_SIZE ==> r.slots()[i] is None,
    {
        let mut slots: Vec<Option<String>> = Vec::new();
        let mut i: usize = 0;
        while i < RING_SIZE
            invariant
                i <= RING_SIZE,
                slots@.len() == i,
                forall|j: int| 0 <= j < i ==> slots@[j] is None,
            decreases RING_SIZE - i,
        {
            slots.push(None);
            i = i + 1;
        }
        KillRing { slots, index: 0 }
    }

    /// Stores `text` in the next slot. Empty text is ignored.
    pub fn push(&mut self, text: String)
        requires
            old(self).wf(),
        ensures
            final(self).wf(),
            text@.len() == 0 ==> final(self).slots() == old(self).slots() && final(self).index()
                == old(self).index(),
            text@.len() > 0 ==> final(self).index() == (old(self).index() + 1) % (
            RING_SIZE as int) && final(self).slots() == old(self).slots().update(
                final(self).index(),
                Some(text@),
            ),
    {
        if text.as_str().unicode_len() == 0 {
            return;
        }
        let ghost t = text@;
        self.index = (self.index + 1) % RING_SIZE;
        let ghost before = self.slots@;
        self.slots.set(self.index, Some(text));
        proof {
            assert(slot_views(self.slots@) =~= slot_views(before).update(self.index as int, Some(t)));
        }
    }

    /// The text that `CTRL-Y` would insert.
    pub fn yank(&self) -> (r: Option<&str>)
        requires
            self.wf(),
        ensures
            match self.slots()[self.index()] {
                Some(t) => r matches Some(s) && s@ == t,
                None => r is None,
            },
    {
        match &self.slots[self.index] {
            Some(s) => Some(s.as_str()),
            None => None,
        }
    }

    /// Steps back to the previous occupied slot, going round the ring at most
    /// once.
    pub fn rotate(&mut self)
        requires
            old(self).wf(),
        ensures
            final(self).wf(),
            final(self).slots() == old(self).slots(),
            final(self).index() == rotate_from(old(self).slots(), old(self).index(), RING_SIZE as nat),
    {
        let ghost start = self.index as int;
        let mut n: usize = 0;
        while n < RING_SIZE
            invariant
                self.wf(),
                self.slots() == old(self).slots(),
                old(self).wf(),
                start == old(self).index(),
                n <= RING_SIZE,
                rotate_from(old(self).slots(), start, RING_SIZE as nat) == rotate_from(
                    self.slots(),
                    self.index as int,
                    (RING_SIZE - n) as nat,
                ),
            decreases RING_SIZE - n,
        {
            let ghost i = self.index as int;
            self.index = (self.index + RING_SIZE - 1) % RING_SIZE;
            proof {
                assert(self.index == prev_slot(i));
                assert(self.slots()[self.index as int] is Some <==> self.slots@[self.index as int] is Some);
            }
            if self.slots[self.index].is_some() {
                proof {
                    let k = (RING_SIZE - n) as nat;
                    assert(k > 0);
                    assert(rotate_from(self.slots(), i, k) == if self.slots()[prev_slot(i)] is Some {
                        prev_slot(i)
                    } else {
                        rotate_from(self.slots(), prev_slot(i), (k - 1) as nat)
                    });
                    assert(self.index() == rotate_from(old(self).slots(), old(self).index(), RING_SIZE as nat));
                }
                return;
            }
            n = n + 1;
        }
    }
}

/// Slot `m` steps back from `i`, wrapping around.
pub open spec fn back(i: int, m: int) -> int {
    (i - m) % (RING_SIZE as int)
}

proof fn lemma_rotate_walk(slots: Seq<Option<Seq<char>>>, i: int, k: nat)
    requires
        slots.len() == RING_SIZE,
        0 <= i < RING_SIZE,
        k <= RING_SIZE,
    ensures
        0 <= rotate_from(slots, i, k) < RING_SIZE,
        (forall|m: int| 1 <= m <= k ==> slots[#[trigger] back(i, m)] is None) ==> rotate_from(
            slots,
            i,
            k,
        ) == back(i, k as int),
        !(forall|m: int| 1 <= m <= k ==> slots[#[trigger] back(i, m)] is None) ==> slots[rotate_from(
            slots,
            i,
            k,
        )] is Some,
    decreases k,
{
    if k > 0 {
        let j = prev_slot(i);
        assert(j == back(i, 1));
        if slots[j] is None {
            lemma_rotate_walk(slots, j, (k - 1) as nat);
            assert forall|m: int| 1 <= m <= k - 1 implies #[trigger] back(j, m) == back(i, m + 1) by {
            }
            if forall|m: int| 1 <= m <= k ==> slots[#[trigger] back(i, m)] is None {
                assert forall|m: int| 1 <= m <= k - 1 implies slots[#[trigger] back(j, m)] is None by {
                    assert(back(j, m) == back(i, m + 1));
                }
                assert(back(j, k - 1) == back(i, k as int));
            } else {
                let m0 = choose|m: int| 1 <= m <= k && !(slots[#[trigger] back(i, m)] is None);
                assert(m0 != 1);
                assert(back(j, m0 - 1) == back(i, m0));
                assert(!(slots[back(j, m0 - 1)] is None));
            }
        } else {
            assert(!(slots[back(i, 1)] is None));
        }
    } else {
        assert(back(i, 0) == i);
    }
}

/// Rotating a ring that holds no kills leaves it pointing where it was.
pub proof fn law_rotate_on_an_empty_ring_stays(slots: Seq<Option<Seq<char>>>, i: int)
    requires
        slots.len() == RING_SIZE,
        0 <= i < RING_SIZE,
        forall|j: int| 0 <= j < RING_SIZE ==> slots[j] is None,
    ensures
        rotate_from(slots, i, RING_SIZE as nat) == i,
{
    lemma_rotate_walk(slots, i, RING_SIZE as nat);
    assert forall|m: int| 1 <= m <= RING_SIZE implies slots[#[trigger] back(i, m)] is None by {
        assert(0 <= back(i, m) < RING_SIZE);
    }
    assert(back(i, RING_SIZE as int) == i);
}

/// Rotating a ring that holds any kill lands on a slot holding one.
pub proof fn law_rotate_lands_on_a_kill(slots: Seq<Option<Seq<char>>>, i: int)
    requires
        slots.len() == RING_SIZE,
        0 <= i < RING_SIZE,
        exists|j: int| 0 <= j < RING_SIZE && slots[j] is Some,
    ensures
        slots[rotate_from(slots, i, RING_SIZE as nat)] is Some,
{
    lemma_rotate_walk(slots, i, RING_SIZE as nat);
    let j = choose|j: int| 0 <= j < RING_SIZE && slots[j] is Some;
    let m = if i - j > 0 {
        i - j
    } else {
        i - j + RING_SIZE
    };
    assert(1 <= m <= RING_SIZE);
    assert(back(i, m) == j);
}

/// After a non-empty kill, yanking gives that kill back.
pub proof fn law_yank_returns_the_last_kill(
    slots: Seq<Option<Seq<char>>>,
    index: int,
    text: Seq<char>,
)
    requires
        slots.len() == RING_SIZE,
        0 <= index < RING_SIZE,
        text.len() > 0,
    ensures
        ({
            let next = (index + 1) % (RING_SIZE as int);
            slots.update(next, Some(text))[next] == Some(text)
        }),
{
}

/// An in-progress tab completion, so repeated `TAB` presses can cycle.
#[derive(Debug, Clone)]
pub struct CompletionCycle {
    /// Byte offset where candidates begin replacing the line.
    pub start: usize,
    /// Byte offset where the currently inserted candidate ends.
    pub end: usize,
    /// The candidates being cycled.
    pub candidates: Vec<String>,
    /// Index of the displayed candidate, or `None` before the first cycle.
    pub index: Option<usize>,
}

/// Everything that belongs to one call to `readline`.
pub struct EditorState {
    /// The line under the cursor.
    pub buffer: LineBuffer,
    /// Killed text available for yanking.
    pub kill_ring: KillRing,
    /// The size of the window the line is drawn in.
    pub win_size: WinSize,
    /// The prompt currently displayed, which changes for continuation lines.
    pub prompt: String,
    /// Prompt used for continuation lines.
    pub continuation: String,
    /// Lines already accepted as part of a multi-line entry, newline separated
    /// and ending with a newline when non-empty.
    pub accumulated: String,
    /// Position in history, where 0 is the line being typed and 1 is the
    /// newest stored entry.
    ///
    /// The line being typed lives here rather than in a scratch slot at the
    /// end of the history: a slot pushed onto a full history would evict the
    /// oldest entry, and popping it again would not bring that entry back.
    pub history_index: usize,
    /// The line being typed, saved while [`EditorState::history_index`] points
    /// at a stored entry.
    pub scratch: String,
    /// Byte range of the most recent yank, so `ALT-Y` can replace it.
    pub last_yank: Option<(usize, usize)>,
    /// Input descriptor.
    pub ifd: i32,
    /// Output descriptor.
    pub ofd: i32,
    /// Inside a bracketed paste.
    pub paste_mode: bool,
    /// Output is stopped by `CTRL-S`.
    pub paused: bool,
    /// Draw the line as asterisks.
    pub mask: bool,
    /// The next key is inserted literally rather than acted on.
    pub escape_next: bool,
    /// `CTRL-X` was pressed and is waiting for the second key of the chord.
    pub ctrl_x_pending: bool,
    /// State for cycling completions on repeated `TAB`.
    pub completion: Option<CompletionCycle>,
    /// The screen no longer matches the buffer and must be redrawn.
    pub dirty: bool,
}

impl EditorState {
    /// The state's parts are consistent.
    pub open spec fn wf(&self) -> bool {
        &&& self.buffer.wf()
        &&& self.kill_ring.wf()
    }

    /// The full text entered so far: the accumulated lines, then the line
    /// being edited.
    pub open spec fn full_text_spec(&self) -> Seq<char> {
        self.accumulated@ + self.buffer.text()
    }

    /// Creates state for a session on `ifd`/`ofd` with the given prompt.
    pub fn new(prompt: &str, continuation: &str, ifd: i32, ofd: i32, win_size: WinSize) -> (s:
        Self)
        ensures
            s.wf(),
            s.buffer.text() == Seq::<char>::empty(),
            s.buffer.pos() == 0,
            s.kill_ring.index() == 0,
            forall|i: int| 0 <= i < RING_SIZE ==> s.kill_ring.slots()[i] is None,
            s.win_size == win_size,
            s.prompt@ == prompt@,
            s.continuation@ == continuation@,
            s.accumulated@ == Seq::<char>::empty(),
            s.history_index == 0,
            s.scratch@ == Seq::<char>::empty(),
            s.last_yank is None,
            s.ifd == ifd,
            s.ofd == ofd,
            !s.paste_mode,
            !s.paused,
            !s.mask,
            !s.escape_next,
            !s.ctrl_x_pending,
            s.completion is None,
            s.dirty,
    {
        EditorState {
            buffer: LineBuffer::new(),
            kill_ring: KillRing::new(),
            win_size,
            prompt: prompt.to_owned(),
            continuation: continuation.to_owned(),
            accumulated: String::new(),
            history_index: 0,
            scratch: String::new(),
            last_yank: None,
            ifd,
            ofd,
            paste_mode: false,
            paused: false,
            mask: false,
            escape_next: false,
            ctrl_x_pending: false,
            completion: None,
            dirty: true,
        }
    }

    /// The full text entered so far, including the line being edited.
    pub fn full_text(&self) -> (r: String)
        requires
            self.wf(),
        ensures
            r@ == self.full_text_spec(),
    {
        let mut v = chars_of(self.accumulated.as_str());
        let line = chars_of(self.buffer.as_str());
        let ghost base = v@;
        let mut i: usize = 0;
        while i < line.len()
            invariant
                i <= line@.len(),
                v@ == base + line@.take(i as int),
            decreases line@.len() - i,
        {
            v.push(line[i]);
            proof {
                assert(base + line@.take(i + 1) =~= (base + line@.take(i as int)).push(line@[i as int]));
            }
            i = i + 1;
        }
        proof {
            assert(line@.take(line@.len() as int) =~= line@);
        }
        string_of(&v)
    }

    /// Moves the current line into the accumulated text and starts a new one
    /// under the continuation prompt.
    pub fn begin_continuation(&mut self)
        requires
            old(self).wf(),
        ensures
            final(self).wf(),
            final(self).accumulated@ == old(self).accumulated@ + old(self).buffer.text().push(
                '\n',
            ),
            final(self).buffer.text() == Seq::<char>::empty(),
            final(self).buffer.pos() == 0,
            final(self).prompt@ == old(self).continuation@,
            final(self).continuation == old(self).continuation,
            final(self).completion is None,
            final(self).dirty,
            final(self).kill_ring == old(self).kill_ring,
            final(self).history_index == old(self).history_index,
            final(self).scratch == old(self).scratch,
            final(self).last_yank == old(self).last_yank,
            final(self).paste_mode == old(self).paste_mode,
            final(self).paused == old(self).paused,
            final(self).mask == old(self).mask,
            final(self).win_size == old(self).win_size,
    {
        let mut text = self.full_text();
        let ghost before = text@;
        crate::text::string_push(&mut text, '\n');
        self.accumulated = text;
        self.buffer.clear();
        self.prompt = self.continuation.as_str().to_owned();
        self.completion = None;
        self.dirty = true;
        proof {
            assert(self.accumulated@ =~= old(self).accumulated@ + old(self).buffer.text().push('\n'));
        }
    }
}

} // verus!
