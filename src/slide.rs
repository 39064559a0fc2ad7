//! One slide: its title, its markdown body and its markers, read from the
//! text of one segment of the document.

use vstd::prelude::*;
use crate::marker::{marker_of, MarkerView, SlideMarker};
use crate::text::{
    chars_equal, chars_of, find_newline, join_with, joined, line_end, line_pieces, lines,
    split_newlines, string_of, strip_cr, trim, trim_bounds, views,
};

verus! {

/// The mathematical value of a slide.
pub struct SlideView {
    pub title: Seq<char>,
    pub markdown: Seq<char>,
    pub markers: Seq<MarkerView>,
}

/// Whether a line is a directive: it begins with `"!!!"`.
pub open spec fn is_directive(l: Seq<char>) -> bool {
    l.len() >= 3 && l[0] == '!' && l[1] == '!' && l[2] == '!'
}

/// The marker of a directive line: its text after `"!!!"`, trimmed, tagged.
pub open spec fn directive_marker(l: Seq<char>) -> MarkerView {
    marker_of(trim(l.skip(3)))
}

/// The lines of `ls` that are no directives, in order.
pub open spec fn kept_lines(ls: Seq<Seq<char>>) -> Seq<Seq<char>>
    decreases ls.len(),
{
    if ls.len() == 0 {
        Seq::empty()
    } else if is_directive(ls.last()) {
        kept_lines(ls.drop_last())
    } else {
        kept_lines(ls.drop_last()).push(ls.last())
    }
}

/// The markers of the directive lines of `ls`, in order.
pub open spec fn directive_markers(ls: Seq<Seq<char>>) -> Seq<MarkerView>
    decreases ls.len(),
{
    if ls.len() == 0 {
        Seq::empty()
    } else if is_directive(ls.last()) {
        directive_markers(ls.drop_last()).push(directive_marker(ls.last()))
    } else {
        directive_markers(ls.drop_last())
    }
}

/// The displayed body of a segment: its trimmed lines without the directive
/// lines, joined by newlines.
pub open spec fn body_of(seg: Seq<char>) -> Seq<char> {
    joined(kept_lines(lines(trim(seg))), seq!['\n'])
}

/// The markers of a segment, in the order of its directive lines.
pub open spec fn markers_of(seg: Seq<char>) -> Seq<MarkerView> {
    directive_markers(lines(trim(seg)))
}

/// The title shown for a slide without a level-one heading.
pub open spec fn placeholder_title() -> Seq<char> {
    "???"@
}

/// Whether a body begins with a level-one heading, `"# "`.
pub open spec fn has_heading(md: Seq<char>) -> bool {
    md.len() >= 2 && md[0] == '#' && md[1] == ' '
}

/// The title of a body: the rest of its heading line, trimmed, or the
/// placeholder where it has no heading.
pub open spec fn title_of(md: Seq<char>) -> Seq<char> {
    if has_heading(md) {
        let rest = md.skip(2);
        trim(rest.take(line_end(rest) as int))
    } else {
        placeholder_title()
    }
}

/// The slide that a segment of the document describes.
pub open spec fn slide_of(seg: Seq<char>) -> SlideView {
    SlideView { title: title_of(body_of(seg)), markdown: body_of(seg), markers: markers_of(seg) }
}

/// A slide of the deck.
#[derive(Debug)]
pub struct Slide {
    title: String,
    markdown: String,
    markers: Vec<SlideMarker>,
}

impl View for Slide {
    type V = SlideView;

    closed spec fn view(&self) -> SlideView {
        SlideView {
            title: self.title@,
            markdown: self.markdown@,
            markers: self.markers@.map_values(|m: SlideMarker| m@),
        }
    }
}

/// Files the line `v[lo..hi]` (without a trailing `'\r'`): a directive adds
/// its marker, any other line is kept for the body.
fn file_line(
    v: &Vec<char>,
    lo: usize,
    hi: usize,
    kept: &mut Vec<String>,
    markers: &mut Vec<SlideMarker>,
)
    requires
        lo <= hi <= v@.len(),
    ensures
        ({
            let l = strip_cr(v@.subrange(lo as int, hi as int));
            &&& views(final(kept)@) == if is_directive(l) {
                views(old(kept)@)
            } else {
                views(old(kept)@).push(l)
            }
            &&& final(markers)@.map_values(|m: SlideMarker| m@) == if is_directive(l) {
                old(markers)@.map_values(|m: SlideMarker| m@).push(directive_marker(l))
            } else {
                old(markers)@.map_values(|m: SlideMarker| m@)
            }
        }),
{
    let ghost raw = v@.subrange(lo as int, hi as int);
    let end: usize = if hi > lo && v[hi - 1] == '\r' {
        hi - 1
    } else {
        hi
    };
    let ghost l = v@.subrange(lo as int, end as int);
    assert(l =~= strip_cr(raw));
    if end - lo >= 3 && v[lo] == '!' && v[lo + 1] == '!' && v[lo + 2] == '!' {
        let (a, b) = trim_bounds(v, lo + 3, end);
        assert(v@.subrange(lo + 3, end as int) =~= l.skip(3));
        let token = string_of(v, a, b);
        let marker = SlideMarker::from_token(token);
        markers.push(marker);
        assert(final(markers)@.map_values(|m: SlideMarker| m@) =~= old(markers)@.map_values(
            |m: SlideMarker| m@,
        ).push(directive_marker(l)));
    } else {
        let line = string_of(v, lo, end);
        kept.push(line);
        assert(views(final(kept)@) =~= views(old(kept)@).push(l));
    }
}

/// Files each line of `v[lo..hi]`, in order: the kept lines and the markers.
fn file_lines(v: &Vec<char>, lo: usize, hi: usize) -> (r: (Vec<String>, Vec<SlideMarker>))
    requires
        lo <= hi <= v@.len(),
    ensures
        views(r.0@) == kept_lines(lines(v@.subrange(lo as int, hi as int))),
        r.1@.map_values(|m: SlideMarker| m@) == directive_markers(
            lines(v@.subrange(lo as int, hi as int)),
        ),
{
    let ghost t = v@.subrange(lo as int, hi as int);
    let mut kept: Vec<String> = Vec::new();
    let mut markers: Vec<SlideMarker> = Vec::new();
    let ghost mut done: Seq<Seq<char>> = Seq::empty();
    let mut start: usize = lo;
    let mut i: usize = lo;
    assert(t.take(0) =~= Seq::<char>::empty());
    assert(v@.subrange(start as int, i as int) =~= Seq::<char>::empty());
    assert(split_newlines(t.take(0)) =~= done.push(v@.subrange(start as int, i as int)));
    while i < hi
        invariant
            lo <= start <= i <= hi <= v@.len(),
            t == v@.subrange(lo as int, hi as int),
            split_newlines(t.take(i - lo)) == done.push(v@.subrange(start as int, i as int)),
            views(kept@) == kept_lines(done.map_values(|l: Seq<char>| strip_cr(l))),
            markers@.map_values(|m: SlideMarker| m@) == directive_markers(
                done.map_values(|l: Seq<char>| strip_cr(l)),
            ),
        decreases hi - i,
    {
        let ghost cur = v@.subrange(start as int, i as int);
        assert(t.take(i - lo + 1).drop_last() =~= t.take(i - lo));
        assert(t.take(i - lo + 1).last() == v@[i as int]);
        if v[i] == '\n' {
            file_line(v, start, i, &mut kept, &mut markers);
            proof {
                let f = |l: Seq<char>| strip_cr(l);
                assert(done.push(cur).map_values(f) =~= done.map_values(f).push(strip_cr(cur)));
                assert(done.push(cur).map_values(f).drop_last() =~= done.map_values(f));
                done = done.push(cur);
            }
            start = i + 1;
            assert(v@.subrange(start as int, i + 1) =~= Seq::<char>::empty());
        } else {
            assert(v@.subrange(start as int, i + 1) =~= cur.push(v@[i as int]));
            assert(done.push(cur).update(done.len() as int, cur.push(v@[i as int])) =~= done.push(
                v@.subrange(start as int, i + 1),
            ));
        }
        i = i + 1;
    }
    assert(t.take(hi - lo) =~= t);
    let ghost last = v@.subrange(start as int, hi as int);
    let ghost f = |l: Seq<char>| strip_cr(l);
    if start < hi {
        file_line(v, start, hi, &mut kept, &mut markers);
        assert(line_pieces(t) == done.push(last));
        assert(done.push(last).map_values(f) =~= done.map_values(f).push(strip_cr(last)));
        assert(done.push(last).map_values(f).drop_last() =~= done.map_values(f));
    } else {
        assert(last.len() == 0);
        assert(done.push(last).drop_last() =~= done);
        assert(line_pieces(t) == done);
    }
    assert(lines(t) == line_pieces(t).map_values(f));
    (kept, markers)
}

/// The title of the body `md`: see `title_of`.
fn title_from(md: &Vec<char>) -> (r: String)
    ensures
        r@ == title_of(md@),
{
    if md.len() >= 2 && md[0] == '#' && md[1] == ' ' {
        let end = find_newline(md, 2);
        let (a, b) = trim_bounds(md, 2, end);
        let ghost rest = md@.skip(2);
        assert(rest.take(line_end(rest) as int) =~= md@.subrange(2, end as int));
        string_of(md, a, b)
    } else {
        let r = String::from_str("???");
        r
    }
}

impl Slide {
    /// The slide of the segment `v[lo..hi]`.
    pub(crate) fn from_chars(v: &Vec<char>, lo: usize, hi: usize) -> (r: Slide)
        requires
            lo <= hi <= v@.len(),
        ensures
            r@ == slide_of(v@.subrange(lo as int, hi as int)),
    {
        let (a, b) = trim_bounds(v, lo, hi);
        let (kept, markers) = file_lines(v, a, b);
        let sep = "\n";
        proof {
            reveal_strlit("\n");
        }
        assert(sep@ =~= seq!['\n']);
        let markdown = join_with(&kept, sep);
        let md = chars_of(markdown.as_str());
        let title = title_from(&md);
        Slide { title, markdown, markers }
    }

    /// Reads a slide from the text of one segment of the document. This never
    /// fails: a slide without a heading gets the placeholder title.
    pub fn new(text: &str) -> (r: Slide)
        ensures
            r@ == slide_of(text@),
    {
        let v = chars_of(text);
        assert(v@.subrange(0, v@.len() as int) =~= text@);
        Slide::from_chars(&v, 0, v.len())
    }

    /// The title: the text of the heading line, or the placeholder.
    pub fn title(&self) -> (r: &str)
        ensures
            r@ == self@.title,
    {
        self.title.as_str()
    }

    /// The body shown, without the directive lines.
    pub fn markdown(&self) -> (r: &str)
        ensures
            r@ == self@.markdown,
    {
        self.markdown.as_str()
    }

    /// The markers, in the order of their directive lines.
    pub fn markers(&self) -> (r: &Vec<SlideMarker>)
        ensures
            r@.map_values(|m: SlideMarker| m@) == self@.markers,
    {
        &self.markers
    }
}

/// Whether `l` holds no `'\n'`.
pub open spec fn no_newline(l: Seq<char>) -> bool {
    forall|m: int| 0 <= m < l.len() ==> l[m] != '\n'
}

/// Whether a line of `md` starts at `i`: at the start, or after a `'\n'`.
pub open spec fn line_start(md: Seq<char>, i: int) -> bool {
    0 <= i <= md.len() && (i == 0 || md[i - 1] == '\n')
}

proof fn lemma_pieces_no_newline(s: Seq<char>)
    ensures
        split_newlines(s).len() >= 1,
        forall|k: int| 0 <= k < split_newlines(s).len() ==> no_newline(#[trigger] split_newlines(s)[k]),
    decreases s.len(),
{
    if s.len() > 0 {
        lemma_pieces_no_newline(s.drop_last());
        let p = split_newlines(s.drop_last());
        if s.last() != '\n' {
            assert forall|k: int| 0 <= k < split_newlines(s).len() implies no_newline(
                #[trigger] split_newlines(s)[k],
            ) by {
                if k == p.len() - 1 {
                    assert(no_newline(p[k]));
                    let q = p[k].push(s.last());
                    assert forall|m: int| 0 <= m < q.len() implies q[m] != '\n' by {
                        if m < p[k].len() {
                            assert(q[m] == p[k][m]);
                        }
                    }
                } else {
                    assert(no_newline(p[k]));
                }
            }
        } else {
            assert forall|k: int| 0 <= k < split_newlines(s).len() implies no_newline(
                #[trigger] split_newlines(s)[k],
            ) by {
                if k < p.len() {
                    assert(no_newline(p[k]));
                }
            }
        }
    }
}

proof fn lemma_lines_no_newline(s: Seq<char>)
    ensures
        forall|k: int| 0 <= k < lines(s).len() ==> no_newline(#[trigger] lines(s)[k]),
{
    lemma_pieces_no_newline(s);
    let p = split_newlines(s);
    assert forall|k: int| 0 <= k < lines(s).len() implies no_newline(#[trigger] lines(s)[k]) by {
        assert(line_pieces(s)[k] == p[k]);
        assert(no_newline(p[k]));
        let l = strip_cr(p[k]);
        assert forall|m: int| 0 <= m < l.len() implies l[m] != '\n' by {
            assert(l[m] == p[k][m]);
        }
    }
}

proof fn lemma_kept_lines_plain(ls: Seq<Seq<char>>)
    requires
        forall|k: int| 0 <= k < ls.len() ==> no_newline(#[trigger] ls[k]),
    ensures
        forall|k: int|
            0 <= k < kept_lines(ls).len() ==> no_newline(#[trigger] kept_lines(ls)[k])
                && !is_directive(kept_lines(ls)[k]),
    decreases ls.len(),
{
    if ls.len() > 0 {
        let r = ls.drop_last();
        assert forall|k: int| 0 <= k < r.len() implies no_newline(#[trigger] r[k]) by {
            assert(r[k] == ls[k]);
        }
        lemma_kept_lines_plain(r);
        let last = ls.last();
        assert(no_newline(last));
        let kr = kept_lines(r);
        assert forall|k: int| 0 <= k < kept_lines(ls).len() implies no_newline(
            #[trigger] kept_lines(ls)[k],
        ) && !is_directive(kept_lines(ls)[k]) by {
            if k < kr.len() {
                assert(kept_lines(ls)[k] == kr[k]);
            } else {
                assert(kept_lines(ls)[k] == last);
            }
        }
    }
}

/// A directive cannot start right before a newline that ends a plain text.
proof fn lemma_not_directive_extend(x: Seq<char>, rest: Seq<char>)
    requires
        !is_directive(x),
    ensures
        !is_directive(x + seq!['\n'] + rest),
{
    let y = x + seq!['\n'] + rest;
    if x.len() >= 3 {
        assert(y[0] == x[0] && y[1] == x[1] && y[2] == x[2]);
    } else {
        assert(y[x.len() as int] == '\n');
    }
}

proof fn lemma_joined_no_directive_line(ls: Seq<Seq<char>>, i: int)
    requires
        forall|k: int| 0 <= k < ls.len() ==> no_newline(#[trigger] ls[k]) && !is_directive(ls[k]),
        line_start(joined(ls, seq!['\n']), i),
    ensures
        !is_directive(joined(ls, seq!['\n']).skip(i)),
    decreases ls.len(),
{
    let md = joined(ls, seq!['\n']);
    if ls.len() == 1 {
        assert(no_newline(ls[0]) && !is_directive(ls[0]));
        if i > 0 {
            assert(md[i - 1] != '\n');
        }
        assert(md.skip(0) =~= ls[0]);
    } else if ls.len() > 1 {
        let r = ls.drop_last();
        let j = joined(r, seq!['\n']);
        let last = ls.last();
        assert(no_newline(last) && !is_directive(last));
        assert(md == j + seq!['\n'] + last);
        if i < j.len() {
            assert forall|k: int| 0 <= k < r.len() implies no_newline(#[trigger] r[k])
                && !is_directive(r[k]) by {
                assert(r[k] == ls[k]);
            }
            if i > 0 {
                assert(md[i - 1] == j[i - 1]);
            }
            lemma_joined_no_directive_line(r, i);
            lemma_not_directive_extend(j.skip(i), last);
            assert(md.skip(i) =~= j.skip(i) + seq!['\n'] + last);
        } else if i == j.len() {
            assert(md.skip(i)[0] == '\n');
        } else if i == j.len() + 1 {
            assert(md.skip(i) =~= last);
        } else {
            assert(md[i - 1] == last[i - 1 - j.len() - 1]);
        }
    }
}

/// No line of a slide's body is a directive: every line that starts in the
/// markdown (at its start or after a newline) does not begin with `"!!!"`.
pub proof fn lemma_body_has_no_directive_line(seg: Seq<char>, i: int)
    requires
        line_start(slide_of(seg).markdown, i),
    ensures
        !is_directive(slide_of(seg).markdown.skip(i)),
{
    let ls = lines(trim(seg));
    lemma_lines_no_newline(trim(seg));
    lemma_kept_lines_plain(ls);
    lemma_joined_no_directive_line(kept_lines(ls), i);
}

proof fn lemma_directive_markers_filter(ls: Seq<Seq<char>>)
    ensures
        directive_markers(ls) == ls.filter(|l: Seq<char>| is_directive(l)).map_values(
            |l: Seq<char>| directive_marker(l),
        ),
    decreases ls.len(),
{
    reveal(Seq::filter);
    if ls.len() == 0 {
        assert(ls.filter(|l: Seq<char>| is_directive(l)).map_values(|l: Seq<char>| directive_marker(l))
            =~= Seq::<MarkerView>::empty());
    } else {
        lemma_directive_markers_filter(ls.drop_last());
        let sub = ls.drop_last().filter(|l: Seq<char>| is_directive(l));
        if is_directive(ls.last()) {
            assert(ls.filter(|l: Seq<char>| is_directive(l)) == sub.push(ls.last()));
            assert(sub.push(ls.last()).map_values(|l: Seq<char>| directive_marker(l)) =~= sub.map_values(
                |l: Seq<char>| directive_marker(l),
            ).push(directive_marker(ls.last())));
        } else {
            assert(ls.filter(|l: Seq<char>| is_directive(l)) == sub);
        }
    }
}

/// The markers of a slide are the tags of the directive lines of its
/// segment, one for each, in the order in which the lines stand.
pub proof fn lemma_markers_in_source_order(seg: Seq<char>)
    ensures
        slide_of(seg).markers == lines(trim(seg)).filter(|l: Seq<char>| is_directive(l)).map_values(
            |l: Seq<char>| marker_of(trim(l.skip(3))),
        ),
{
    let ls = lines(trim(seg));
    lemma_directive_markers_filter(ls);
    assert(ls.filter(|l: Seq<char>| is_directive(l)).map_values(|l: Seq<char>| directive_marker(l))
        =~= ls.filter(|l: Seq<char>| is_directive(l)).map_values(
        |l: Seq<char>| marker_of(trim(l.skip(3))),
    ));
}

} // verus!
