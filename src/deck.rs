//! The deck: a document split into slides, the current slide and the demo
//! state, and the moves between slides.

use vstd::arithmetic::div_mod::{lemma_mod_add_multiples_vanish, lemma_mod_self_0, lemma_small_mod};
use vstd::prelude::*;
use crate::slide::{
    is_directive, lemma_body_has_no_directive_line, line_start, slide_of, Slide, SlideView,
};
use crate::text::chars_of;

verus! {

/// The number of dashes in the line that separates two slides.
pub const DELIMITER_DASHES: usize = 79;

/// The length of the separator: the dashes and a newline on each side.
pub const DELIMITER_LEN: usize = 81;

/// Whether the separator (`'\n'`, the dashes, `'\n'`) starts at `j` in `d`.
pub open spec fn delimiter_at(d: Seq<char>, j: int) -> bool {
    &&& 0 <= j
    &&& j + DELIMITER_LEN <= d.len()
    &&& d[j] == '\n'
    &&& d[j + DELIMITER_LEN - 1] == '\n'
    &&& forall|k: int| 1 <= k <= DELIMITER_DASHES ==> #[trigger] d[j + k] == '-'
}

/// The segments of `d` from a segment that starts at `start`, scanning for
/// separators from `j` on, left to right, without overlap.
pub open spec fn segments_from(d: Seq<char>, start: int, j: int) -> Seq<Seq<char>>
    decreases d.len() - j,
{
    if j < 0 || j + DELIMITER_LEN > d.len() {
        seq![d.subrange(start, d.len() as int)]
    } else if delimiter_at(d, j) {
        seq![d.subrange(start, j)] + segments_from(d, j + DELIMITER_LEN, j + DELIMITER_LEN)
    } else {
        segments_from(d, start, j + 1)
    }
}

/// The segments of a document: the text between its separator lines.
pub open spec fn segments(d: Seq<char>) -> Seq<Seq<char>> {
    segments_from(d, 0, 0)
}

/// The slides of a document, one for each segment, in order.
pub open spec fn parse_spec(d: Seq<char>) -> Seq<SlideView> {
    segments(d).map_values(|s: Seq<char>| slide_of(s))
}

/// The views of a list of slides.
pub open spec fn slide_views(v: Seq<Slide>) -> Seq<SlideView> {
    v.map_values(|s: Slide| s@)
}

/// Whether the separator starts at `j` in `v`.
fn is_delimiter_at(v: &Vec<char>, j: usize) -> (r: bool)
    requires
        j + DELIMITER_LEN <= v@.len(),
    ensures
        r == delimiter_at(v@, j as int),
{
    let n = v.len();
    assert(j + DELIMITER_LEN <= n);
    if v[j] != '\n' || v[j + DELIMITER_LEN - 1] != '\n' {
        return false;
    }
    let mut k: usize = 1;
    while k <= DELIMITER_DASHES
        invariant
            1 <= k <= DELIMITER_DASHES + 1,
            j + DELIMITER_LEN <= n,
            n == v@.len(),
            forall|m: int| 1 <= m < k ==> #[trigger] v@[j + m] == '-',
        decreases DELIMITER_DASHES + 1 - k,
    {
        if v[j + k] != '-' {
            return false;
        }
        k = k + 1;
    }
    true
}

/// Splits a document into its slides; there is always at least one.
pub fn parse(doc: &str) -> (r: Vec<Slide>)
    ensures
        slide_views(r@) == parse_spec(doc@),
        r@.len() >= 1,
{
    let v = chars_of(doc);
    let n = v.len();
    let ghost d = v@;
    let mut out: Vec<Slide> = Vec::new();
    let mut start: usize = 0;
    let mut j: usize = 0;
    while n >= DELIMITER_LEN && j <= n - DELIMITER_LEN
        invariant
            d == v@,
            n == d.len(),
            start <= j,
            start <= n,
            slide_views(out@) + segments_from(d, start as int, j as int).map_values(
                |s: Seq<char>| slide_of(s),
            ) == parse_spec(d),
        decreases n - j,
    {
        if is_delimiter_at(&v, j) {
            let slide = Slide::from_chars(&v, start, j);
            let ghost rest = segments_from(d, j + DELIMITER_LEN, j + DELIMITER_LEN);
            let ghost f = |s: Seq<char>| slide_of(s);
            assert((seq![d.subrange(start as int, j as int)] + rest).map_values(f) =~= seq![
                slide_of(d.subrange(start as int, j as int)),
            ] + rest.map_values(f));
            let ghost before = out@;
            let ghost x = slide_of(d.subrange(start as int, j as int));
            out.push(slide);
            assert(slide_views(out@) =~= slide_views(before).push(x));
            assert(slide_views(before).push(x) + rest.map_values(f) =~= slide_views(before) + (seq![x] + rest.map_values(f)));
            start = j + DELIMITER_LEN;
            j = j + DELIMITER_LEN;
        } else {
            j = j + 1;
        }
    }
    let slide = Slide::from_chars(&v, start, n);
    let ghost before = out@;
    out.push(slide);
    assert(slide_views(out@) =~= slide_views(before) + segments_from(d, start as int, j as int).map_values(|s: Seq<char>| slide_of(s)));
    out
}

/// The index after `i` among `n` slides, wrapping to the first.
pub open spec fn advance_index(i: int, n: int) -> int {
    (i + 1) % n
}

/// The index before `i` among `n` slides, wrapping to the last.
pub open spec fn retreat_index(i: int, n: int) -> int {
    (i + n - 1) % n
}

/// `advance_index` without the modulo.
pub proof fn lemma_advance_index(i: int, n: int)
    requires
        0 <= i < n,
    ensures
        advance_index(i, n) == if i + 1 < n {
            i + 1
        } else {
            0
        },
{
    if i + 1 < n {
        lemma_small_mod((i + 1) as nat, n as nat);
    } else {
        lemma_mod_self_0(n);
    }
}

/// `retreat_index` without the modulo.
pub proof fn lemma_retreat_index(i: int, n: int)
    requires
        0 <= i < n,
    ensures
        retreat_index(i, n) == if i == 0 {
            n - 1
        } else {
            i - 1
        },
{
    if i == 0 {
        lemma_small_mod((n - 1) as nat, n as nat);
    } else {
        lemma_mod_add_multiples_vanish(i - 1, n);
        lemma_small_mod((i - 1) as nat, n as nat);
    }
}

/// The state that outlives a session: the current slide and the demo state.
#[derive(Clone, Copy, Debug, PartialEq, Eq, Structural)]
pub struct SavedState {
    pub slide_nr: usize,
    pub counter: i32,
    pub some_bool: bool,
}

/// What happened in one frame: the keys pressed and the menu entry clicked
/// or hovered.
#[derive(Clone, Copy, Debug, PartialEq, Eq, Structural)]
pub struct FrameInput {
    /// A key that moves to the next slide was pressed.
    pub next_pressed: bool,
    /// A key that moves to the previous slide was pressed.
    pub prev_pressed: bool,
    /// The slide picked in the menu, if any.
    pub clicked: Option<usize>,
    /// The menu entry under the pointer, if any.
    pub hovered: Option<usize>,
}

/// The mathematical value of a presentation.
pub struct PresentationView {
    pub slides: Seq<SlideView>,
    pub slide_nr: usize,
    pub counter: i32,
    pub some_bool: bool,
}

/// A deck is valid when it has a slide and its index points at one.
pub open spec fn valid(p: PresentationView) -> bool {
    0 < p.slides.len() && p.slide_nr < p.slides.len()
}

/// The saved part of a presentation.
pub open spec fn saved_of(p: PresentationView) -> SavedState {
    SavedState { slide_nr: p.slide_nr, counter: p.counter, some_bool: p.some_bool }
}

/// The presentation of a freshly read document.
pub open spec fn fresh(d: Seq<char>) -> PresentationView {
    PresentationView { slides: parse_spec(d), slide_nr: 0, counter: 0, some_bool: false }
}

/// The presentation of a document with a saved state: an index beyond the
/// deck wraps around its length.
pub open spec fn restored(d: Seq<char>, s: SavedState) -> PresentationView {
    PresentationView {
        slides: parse_spec(d),
        slide_nr: (s.slide_nr as int % parse_spec(d).len() as int) as usize,
        counter: s.counter,
        some_bool: s.some_bool,
    }
}

/// The index shown: a hovered menu entry that names a slide, else the current
/// slide.
pub open spec fn display_index(p: PresentationView, hovered: Option<usize>) -> usize {
    match hovered {
        Some(h) => if h < p.slides.len() {
            h
        } else {
            p.slide_nr
        },
        None => p.slide_nr,
    }
}

/// The index after the keys of one frame: forward first, then back.
pub open spec fn after_keys(i: int, n: int, next: bool, prev: bool) -> int {
    let a = if next {
        advance_index(i, n)
    } else {
        i
    };
    if prev {
        retreat_index(a, n)
    } else {
        a
    }
}

/// The state after one frame of input: the keys move the index, then a
/// clicked menu entry that names a slide is selected.
pub open spec fn after_frame(p: PresentationView, input: FrameInput) -> PresentationView {
    let k = after_keys(p.slide_nr as int, p.slides.len() as int, input.next_pressed, input.prev_pressed);
    let i = match input.clicked {
        Some(c) => if c < p.slides.len() {
            c as int
        } else {
            k
        },
        None => k,
    };
    PresentationView { slide_nr: i as usize, ..p }
}

/// The loaded deck with its navigation and demo state.
pub struct Presentation {
    slides: Vec<Slide>,
    slide_nr: usize,
    counter: i32,
    some_bool: bool,
}

impl View for Presentation {
    type V = PresentationView;

    closed spec fn view(&self) -> PresentationView {
        PresentationView {
            slides: slide_views(self.slides@),
            slide_nr: self.slide_nr,
            counter: self.counter,
            some_bool: self.some_bool,
        }
    }
}

impl Presentation {
    #[verifier::type_invariant]
    spec fn inv(&self) -> bool {
        0 < self.slides@.len() && self.slide_nr < self.slides@.len()
    }

    /// The deck of a document, at its first slide, with the demo state reset.
    pub fn from_document(doc: &str) -> (r: Presentation)
        ensures
            r@ == fresh(doc@),
            valid(r@),
    {
        let slides = parse(doc);
        Presentation { slides, slide_nr: 0, counter: 0, some_bool: false }
    }

    /// The deck of a document with a saved state put back; an index beyond
    /// the deck wraps around its length.
    pub fn restore(doc: &str, saved: SavedState) -> (r: Presentation)
        ensures
            r@ == restored(doc@, saved),
            valid(r@),
    {
        let slides = parse(doc);
        let n = slides.len();
        Presentation { slides, slide_nr: saved.slide_nr % n, counter: saved.counter, some_bool: saved.some_bool }
    }

    /// The deck of a document, with the saved state if there is one.
    pub fn new(doc: &str, saved: Option<SavedState>) -> (r: Presentation)
        ensures
            r@ == match saved {
                Some(s) => restored(doc@, s),
                None => fresh(doc@),
            },
            valid(r@),
    {
        match saved {
            Some(s) => Presentation::restore(doc, s),
            None => Presentation::from_document(doc),
        }
    }

    /// The state to keep for the next session.
    pub fn saved(&self) -> (r: SavedState)
        ensures
            r == saved_of(self@),
    {
        SavedState { slide_nr: self.slide_nr, counter: self.counter, some_bool: self.some_bool }
    }

    /// Moves to the next slide, from the last to the first.
    pub fn advance(&mut self)
        ensures
            final(self)@ == (PresentationView {
                slide_nr: advance_index(old(self)@.slide_nr as int, old(self)@.slides.len() as int) as usize,
                ..old(self)@
            }),
            valid(final(self)@),
    {
        proof {
            use_type_invariant(&*self);
        }
        proof {
            lemma_advance_index(self.slide_nr as int, self.slides@.len() as int);
        }
        if self.slide_nr < self.slides.len() - 1 {
            self.slide_nr = self.slide_nr + 1;
        } else {
            self.slide_nr = 0;
        }
    }

    /// Moves to the previous slide, from the first to the last.
    pub fn retreat(&mut self)
        ensures
            final(self)@ == (PresentationView {
                slide_nr: retreat_index(old(self)@.slide_nr as int, old(self)@.slides.len() as int) as usize,
                ..old(self)@
            }),
            valid(final(self)@),
    {
        proof {
            use_type_invariant(&*self);
        }
        proof {
            lemma_retreat_index(self.slide_nr as int, self.slides@.len() as int);
        }
        if self.slide_nr == 0 {
            self.slide_nr = self.slides.len() - 1;
        } else {
            self.slide_nr = self.slide_nr - 1;
        }
    }

    /// Makes slide `i` the current one.
    pub fn select(&mut self, i: usize)
        requires
            i < old(self)@.slides.len(),
        ensures
            final(self)@ == (PresentationView { slide_nr: i, ..old(self)@ }),
            valid(final(self)@),
    {
        proof {
            use_type_invariant(&*self);
        }
        self.slide_nr = i;
    }

    /// The slide to show: a hovered menu entry that names a slide, else the
    /// current slide. Nothing is committed.
    pub fn preview_index(&self, hovered: Option<usize>) -> (r: usize)
        ensures
            r == display_index(self@, hovered),
            r < self@.slides.len(),
    {
        proof {
            use_type_invariant(self);
        }
        match hovered {
            Some(h) => if h < self.slides.len() {
                h
            } else {
                self.slide_nr
            },
            None => self.slide_nr,
        }
    }

    /// Takes one frame of input: the keys move the current slide (forward
    /// first, then back), a clicked menu entry is selected, and the index of
    /// the slide to show is returned.
    pub fn ui(&mut self, input: FrameInput) -> (r: usize)
        ensures
            final(self)@ == after_frame(old(self)@, input),
            r == display_index(final(self)@, input.hovered),
            valid(final(self)@),
    {
        let len = self.slides.len();
        let ghost p = self@;
        let ghost n = len as int;
        proof {
            use_type_invariant(&*self);
            lemma_advance_index(p.slide_nr as int, n);
            let a = if input.next_pressed {
                advance_index(p.slide_nr as int, n)
            } else {
                p.slide_nr as int
            };
            lemma_retreat_index(a, n);
        }
        if input.next_pressed {
            self.advance();
        }
        if input.prev_pressed {
            self.retreat();
        }
        match input.clicked {
            Some(c) => if c < self.slides.len() {
                self.select(c);
            },
            None => {},
        }
        self.preview_index(input.hovered)
    }

    /// Adds one to the demo counter; it stays at `i32::MAX`.
    pub fn increment_counter(&mut self)
        ensures
            final(self)@ == (PresentationView {
                counter: if old(self)@.counter < i32::MAX {
                    (old(self)@.counter + 1) as i32
                } else {
                    old(self)@.counter
                },
                ..old(self)@
            }),
    {
        proof {
            use_type_invariant(&*self);
        }
        if self.counter < i32::MAX {
            self.counter = self.counter + 1;
        }
    }

    /// Takes one from the demo counter; it stays at `i32::MIN`.
    pub fn decrement_counter(&mut self)
        ensures
            final(self)@ == (PresentationView {
                counter: if old(self)@.counter > i32::MIN {
                    (old(self)@.counter - 1) as i32
                } else {
                    old(self)@.counter
                },
                ..old(self)@
            }),
    {
        proof {
            use_type_invariant(&*self);
        }
        if self.counter > i32::MIN {
            self.counter = self.counter - 1;
        }
    }

    /// The slides, in order.
    pub fn slides(&self) -> (r: &Vec<Slide>)
        ensures
            slide_views(r@) == self@.slides,
    {
        &self.slides
    }

    /// The number of slides; never zero.
    pub fn len(&self) -> (r: usize)
        ensures
            r == self@.slides.len(),
            r > 0,
    {
        proof {
            use_type_invariant(self);
        }
        self.slides.len()
    }

    /// Slide `i`.
    pub fn slide(&self, i: usize) -> (r: &Slide)
        requires
            i < self@.slides.len(),
        ensures
            r@ == self@.slides[i as int],
    {
        &self.slides[i]
    }

    /// The index of the current slide.
    pub fn slide_nr(&self) -> (r: usize)
        ensures
            r == self@.slide_nr,
            r < self@.slides.len(),
    {
        proof {
            use_type_invariant(self);
        }
        self.slide_nr
    }

    /// The demo counter.
    pub fn counter(&self) -> (r: i32)
        ensures
            r == self@.counter,
    {
        self.counter
    }

    /// The demo toggle.
    pub fn some_bool(&self) -> (r: bool)
        ensures
            r == self@.some_bool,
    {
        self.some_bool
    }

    /// Flips the demo toggle.
    pub fn flip_toggle(&mut self)
        ensures
            final(self)@ == (PresentationView { some_bool: !old(self)@.some_bool, ..old(self)@ }),
    {
        proof {
            use_type_invariant(&*self);
        }
        self.some_bool = !self.some_bool;
    }
}

proof fn lemma_segments_from_nonempty(d: Seq<char>, start: int, j: int)
    ensures
        segments_from(d, start, j).len() >= 1,
    decreases d.len() - j,
{
    if j < 0 || j + DELIMITER_LEN > d.len() {
    } else if delimiter_at(d, j) {
        lemma_segments_from_nonempty(d, j + DELIMITER_LEN, j + DELIMITER_LEN);
    } else {
        lemma_segments_from_nonempty(d, start, j + 1);
    }
}

/// Every document, the empty one too, gives at least one slide.
pub proof fn lemma_parse_nonempty(d: Seq<char>)
    ensures
        parse_spec(d).len() >= 1,
{
    lemma_segments_from_nonempty(d, 0, 0);
}

/// No slide of a document has a line in its body that is a directive.
pub proof fn lemma_deck_has_no_directive_line(d: Seq<char>, k: int, i: int)
    requires
        0 <= k < parse_spec(d).len(),
        line_start(parse_spec(d)[k].markdown, i),
    ensures
        !is_directive(parse_spec(d)[k].markdown.skip(i)),
{
    lemma_body_has_no_directive_line(segments(d)[k], i);
}

/// Moving forward and then back returns to the same slide, for any number
/// of slides from one on.
pub proof fn lemma_advance_then_retreat(i: int, n: int)
    requires
        0 <= i < n,
    ensures
        retreat_index(advance_index(i, n), n) == i,
{
    lemma_advance_index(i, n);
    lemma_retreat_index(advance_index(i, n), n);
}

/// Saving a valid presentation and restoring it from the same document
/// gives the same presentation back.
pub proof fn lemma_save_restore(d: Seq<char>, p: PresentationView)
    requires
        p.slides == parse_spec(d),
        valid(p),
    ensures
        restored(d, saved_of(p)) == p,
{
    lemma_small_mod(p.slide_nr as nat, p.slides.len() as nat);
}

} // verus!
