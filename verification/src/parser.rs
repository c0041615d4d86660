//! The markup parser: a tag tokenizer, a children scanner, and the tree
//! parser that orchestrates them. Every scanner is specified by a character-
//! by-character state machine over the input, and the executable code is
//! proved to return exactly what the machine describes.

use crate::text::{eq_chars, extract, is_space, spec_is_space, spec_trim, trimmed};
use crate::tree::{
    empty_tree, tree_view, trees_view,
    plain_of, plain_tag, text_key, AttrMap, ErrorV, Extra, ExtraV, ParseError, Tree, TreeV,
};
use vstd::prelude::*;

verus! {

/// States of the tag tokenizer.
#[derive(Clone, Copy, PartialEq, Eq, Structural)]
pub enum TagProc {
    Idle,
    Tag,
    Attrs,
    Quote,
}

/// Full state of the tag tokenizer between two characters: the current
/// machine state, the tag/key/value spans (as absolute positions), and the
/// attributes flushed so far.
pub struct TagSt {
    pub process: TagProc,
    pub t0: int,
    pub t1: int,
    pub k0: int,
    pub k1: int,
    pub v0: int,
    pub v1: int,
    pub attrs: Map<Seq<char>, Seq<char>>,
}

/// What scanning a tag yields: the trimmed tag name, the attribute mapping
/// and the position one past the closing `>`, or a fatal error.
pub enum TagOut {
    Good { tag: Seq<char>, attrs: Map<Seq<char>, Seq<char>>, pos: int },
    Bad { err: ErrorV },
}

/// The tokenizer's state when scanning starts at `start`: all spans empty at
/// `start`, nothing seen yet.
pub open spec fn tag_init(start: int) -> TagSt {
    TagSt {
        process: TagProc::Idle,
        t0: start,
        t1: start,
        k0: start,
        k1: start,
        v0: start,
        v1: start,
        attrs: Map::empty(),
    }
}

/// The trimmed span `a..b` of `h`.
pub open spec fn span(h: Seq<char>, a: int, b: int) -> Seq<char> {
    spec_trim(h.subrange(a, b))
}

/// One tag-tokenizer run over `h` from position `p` in state `st`, to the
/// closing `>` or to the end of the input.
///
/// Keys and values are trimmed before insertion; an empty trimmed key is
/// dropped. A `=` outside the attribute state is a malformed tag, and so is
/// running out of input before `>`.
pub open spec fn tag_scan(h: Seq<char>, start: int, p: int, st: TagSt) -> TagOut
    decreases h.len() - p,
    when 0 <= p <= h.len()
{
    if p == h.len() {
        TagOut::Bad {
            err: ErrorV::Malformed { partial: h.subrange(st.t0, st.t1), found: None::<char> },
        }
    } else {
        let q = h[p];
        if q == '<' {
            tag_scan(h, start, p + 1, TagSt { process: TagProc::Tag, t0: p + 1, t1: p + 1, ..st })
        } else if q == '>' {
            match st.process {
                TagProc::Tag => TagOut::Good {
                    tag: span(h, st.t0, p),
                    attrs: st.attrs,
                    pos: p + 1,
                },
                TagProc::Attrs => {
                    let attrs = if span(h, st.k0, st.k1).len() != 0 {
                        st.attrs.insert(span(h, st.k0, st.k1), span(h, st.v0, st.v1))
                    } else {
                        st.attrs
                    };
                    TagOut::Good { tag: span(h, st.t0, st.t1), attrs, pos: p + 1 }
                },
                _ => TagOut::Good { tag: span(h, st.t0, st.t1), attrs: st.attrs, pos: p + 1 },
            }
        } else if q == '"' {
            match st.process {
                TagProc::Quote => tag_scan(
                    h,
                    start,
                    p + 1,
                    TagSt { process: TagProc::Attrs, v1: p, ..st },
                ),
                _ => tag_scan(
                    h,
                    start,
                    p + 1,
                    TagSt { process: TagProc::Quote, v0: p + 1, v1: p + 1, ..st },
                ),
            }
        } else if q == '=' {
            match st.process {
                TagProc::Attrs => tag_scan(h, start, p + 1, TagSt { k1: p, ..st }),
                _ => TagOut::Bad {
                    err: ErrorV::Malformed {
                        partial: h.subrange(st.t0, st.t1),
                        found: Some('='),
                    },
                },
            }
        } else if spec_is_space(q) {
            match st.process {
                TagProc::Tag => {
                    if span(h, st.t0, st.t1).len() == 0 {
                        tag_scan(h, start, p + 1, TagSt { t1: p, ..st })
                    } else {
                        tag_scan(
                            h,
                            start,
                            p + 1,
                            TagSt { process: TagProc::Attrs, k0: p + 1, k1: p + 1, ..st },
                        )
                    }
                },
                TagProc::Quote => tag_scan(h, start, p + 1, TagSt { v1: p, ..st }),
                TagProc::Attrs => {
                    if st.k1 - st.k0 != 0 && st.v1 - st.v0 != 0 {
                        tag_scan(
                            h,
                            start,
                            p + 1,
                            TagSt {
                                attrs: st.attrs.insert(
                                    span(h, st.k0, st.k1),
                                    span(h, st.v0, st.v1),
                                ),
                                k0: p,
                                k1: p,
                                ..st
                            },
                        )
                    } else {
                        tag_scan(h, start, p + 1, st)
                    }
                },
                TagProc::Idle => tag_scan(h, start, p + 1, st),
            }
        } else {
            match st.process {
                TagProc::Tag => tag_scan(h, start, p + 1, TagSt { t1: p + 1, ..st }),
                TagProc::Quote => tag_scan(h, start, p + 1, TagSt { v1: p, ..st }),
                TagProc::Attrs => {
                    if st.v0 == start {
                        tag_scan(h, start, p + 1, TagSt { k1: p, ..st })
                    } else {
                        tag_scan(h, start, p + 1, TagSt { v1: p, ..st })
                    }
                },
                TagProc::Idle => tag_scan(h, start, p + 1, st),
            }
        }
    }
}

/// What the tag tokenizer yields on `h` from `start`.
pub open spec fn tag_result(h: Seq<char>, start: int) -> TagOut {
    tag_scan(h, start, start, tag_init(start))
}

/// Scan one opening tag of `h` beginning at `start`: its trimmed name, its
/// attribute mapping, and the position one past the matching `>`.
pub fn tag(h: &[char], start: usize) -> (r: Result<(Vec<char>, AttrMap, usize), ParseError>)
    requires
        start <= h@.len(),
    ensures
        match r {
            Ok(out) => {
                &&& out.1.wf()
                &&& tag_result(h@, start as int) == (TagOut::Good {
                    tag: out.0@,
                    attrs: out.1@,
                    pos: out.2 as int,
                })
                &&& start < out.2 <= h@.len()
            },
            Err(e) => tag_result(h@, start as int) == (TagOut::Bad { err: e@ }),
        },
{
    let mut process = TagProc::Idle;
    let mut t0 = start;
    let mut t1 = start;
    let mut k0 = start;
    let mut k1 = start;
    let mut v0 = start;
    let mut v1 = start;
    let mut attrs = AttrMap::new();
    let mut p = start;
    while p < h.len()
        invariant
            start <= p <= h@.len(),
            start <= t0 <= t1 <= p,
            start <= k0 <= k1 <= p,
            start <= v0 <= v1 <= p,
            attrs.wf(),
            tag_result(h@, start as int) == tag_scan(
                h@,
                start as int,
                p as int,
                TagSt {
                    process,
                    t0: t0 as int,
                    t1: t1 as int,
                    k0: k0 as int,
                    k1: k1 as int,
                    v0: v0 as int,
                    v1: v1 as int,
                    attrs: attrs@,
                },
            ),
        decreases h@.len() - p,
    {
        let q = h[p];
        if q == '<' {
            process = TagProc::Tag;
            t0 = p + 1;
            t1 = p + 1;
        } else if q == '>' {
            match process {
                TagProc::Tag => {
                    t1 = p;
                },
                TagProc::Attrs => {
                    let key = trimmed(h, k0, k1);
                    if key.len() != 0 {
                        let val = trimmed(h, v0, v1);
                        attrs.insert(key, val);
                    }
                },
                _ => {},
            }
            let name = trimmed(h, t0, t1);
            return Ok((name, attrs, p + 1));
        } else if q == '"' {
            match process {
                TagProc::Quote => {
                    process = TagProc::Attrs;
                    v1 = p;
                },
                _ => {
                    v0 = p + 1;
                    v1 = p + 1;
                    process = TagProc::Quote;
                },
            }
        } else if q == '=' {
            match process {
                TagProc::Attrs => {
                    k1 = p;
                },
                _ => {
                    let partial = extract(h, t0, t1);
                    return Err(ParseError::MalformedTag { partial, found: Some('=') });
                },
            }
        } else if is_space(q) {
            match process {
                TagProc::Tag => {
                    let name = trimmed(h, t0, t1);
                    if name.len() == 0 {
                        t1 = p;
                    } else {
                        process = TagProc::Attrs;
                        k0 = p + 1;
                        k1 = p + 1;
                    }
                },
                TagProc::Quote => {
                    v1 = p;
                },
                TagProc::Attrs => {
                    if k1 - k0 != 0 && v1 - v0 != 0 {
                        let key = trimmed(h, k0, k1);
                        let val = trimmed(h, v0, v1);
                        attrs.insert(key, val);
                        k0 = p;
                        k1 = p;
                    }
                },
                TagProc::Idle => {},
            }
        } else {
            match process {
                TagProc::Tag => {
                    t1 = p + 1;
                },
                TagProc::Quote => {
                    v1 = p;
                },
                TagProc::Attrs => {
                    if v0 == start {
                        k1 = p;
                    } else {
                        v1 = p;
                    }
                },
                TagProc::Idle => {},
            }
        }
        p = p + 1;
    }
    let partial = extract(h, t0, t1);
    Err(ParseError::MalformedTag { partial, found: None })
}

/// Build a plain-text leaf holding `text` under the `"text"` attribute.
pub fn plain(text: Vec<char>) -> (t: Tree)
    ensures
        t@ == plain_of(text@),
        t.attrs.wf(),
{
    let mut attrs = AttrMap::new();
    let mut key: Vec<char> = Vec::new();
    key.push('t');
    key.push('e');
    key.push('x');
    key.push('t');
    proof {
        assert(key@ =~= text_key());
    }
    attrs.insert(key, text);
    let mut tag_: Vec<char> = Vec::new();
    tag_.push('p');
    tag_.push('l');
    tag_.push('a');
    tag_.push('i');
    tag_.push('n');
    proof {
        assert(tag_@ =~= plain_tag());
    }
    let t = Tree { attrs, tag: tag_, children: Vec::new() };
    proof {
        assert(t@.children =~= Seq::<TreeV>::empty());
        assert(t@ =~= plain_of(text@));
    }
    t
}

} // verus!

verus! {

/// States of the children scanner.
#[derive(Clone, Copy, PartialEq, Eq, Structural)]
pub enum ChProc {
    Idle,
    BeginTag,
    CloseTag,
    Plain,
}

/// Full state of the children scanner between two characters: the machine
/// state, the last tag span and the current plain-text span (absolute
/// positions), and the children collected so far.
pub struct ChSt {
    pub process: ChProc,
    pub t0: int,
    pub t1: int,
    pub c0: int,
    pub c1: int,
    pub kids: Seq<TreeV>,
}

/// What scanning a run of children yields: the children collected, whether a
/// matching close tag was consumed, the position reached, and the tag name
/// associated with the scan; or a fatal error.
pub enum ChOut {
    Done { kids: Seq<TreeV>, end: bool, pos: int, tag: Seq<char> },
    Bad { err: ErrorV },
}

/// What parsing a tree yields: its model and an optional continuation
/// signal, or a fatal error.
pub enum RdeOut {
    Good { tree: TreeV, ext: Option<ExtraV> },
    Bad { err: ErrorV },
}

/// The scanner's state when scanning starts at `start`: all spans empty at
/// `start`, children as handed in.
pub open spec fn ch_init(start: int, kids: Seq<TreeV>) -> ChSt {
    ChSt { process: ChProc::Idle, t0: start, t1: start, c0: start, c1: start, kids }
}

/// The name inside a close tag: the span between `<` and `>` trimmed, its
/// leading `/` dropped, and the rest trimmed again.
pub open spec fn close_name(s: Seq<char>) -> Seq<char> {
    let w = spec_trim(s);
    if w.len() >= 1 {
        spec_trim(w.subrange(1, w.len() as int))
    } else {
        Seq::empty()
    }
}

/// A `</` close-tag marker occurs in `h` at or after `start`.
pub open spec fn has_close(h: Seq<char>, start: int) -> bool {
    exists|i: int| start <= i && i + 1 < h.len() && (#[trigger] h[i]) == '<' && h[i + 1] == '/'
}

/// A placeholder failure for spec branches that executable code can never
/// reach; it keeps the recursion of the machines well founded.
pub open spec fn dead_end() -> ErrorV {
    ErrorV::Malformed { partial: Seq::empty(), found: None::<char> }
}

/// One children-scanner run over `h` from position `p` in state `st`, under
/// the open tag `tag` whose scan began at `start`.
///
/// A nested `<...>` hands the input to the tree parser at the `<`; a close
/// tag must name `tag`; running out of input counts as an implicit close.
pub open spec fn ch_scan(h: Seq<char>, tag: Seq<char>, start: int, p: int, st: ChSt) -> ChOut
    decreases h.len() - start, 1int, h.len() - p,
    when 0 <= start <= p <= h.len() && start <= st.t0 <= p
{
    if p == h.len() {
        ChOut::Done { kids: st.kids, end: true, pos: h.len() as int, tag }
    } else {
        let q = h[p];
        if q == '<' {
            let frozen = if st.process == ChProc::Plain {
                p
            } else {
                st.c1
            };
            ch_scan(
                h,
                tag,
                start,
                p + 1,
                ChSt { process: ChProc::BeginTag, t0: p, t1: p, c1: frozen, ..st },
            )
        } else if q == '/' {
            if h[st.t0] == '<' {
                ch_scan(h, tag, start, p + 1, ChSt { process: ChProc::CloseTag, ..st })
            } else if st.process != ChProc::Plain {
                ChOut::Bad {
                    err: ErrorV::UnexpectedClose { fragment: h.subrange(start, h.len() as int) },
                }
            } else {
                ch_scan(h, tag, start, p + 1, st)
            }
        } else if q == '>' {
            match st.process {
                ChProc::BeginTag => match rde_spec(h, st.t0) {
                    RdeOut::Bad { err } => ChOut::Bad { err },
                    RdeOut::Good { tree, ext } => {
                        let kids2 = st.kids.push(tree);
                        match ext {
                            Some(e) => ChOut::Done { kids: kids2, end: false, pos: e.pos, tag: e.tag },
                            None => ch_scan(h, tag, start, p + 1, ChSt { t1: p, kids: kids2, ..st }),
                        }
                    },
                },
                ChProc::CloseTag => {
                    let itag = close_name(h.subrange(st.t0 + 1, p));
                    if itag != tag {
                        ChOut::Bad {
                            err: ErrorV::Mismatched {
                                expected: tag,
                                found: itag,
                                fragment: h.subrange(start, h.len() as int),
                            },
                        }
                    } else if h.subrange(st.c0, st.c1).len() != 0 {
                        ChOut::Done {
                            kids: st.kids.push(plain_of(h.subrange(st.c0, st.c1))),
                            end: true,
                            pos: p,
                            tag: itag,
                        }
                    } else {
                        ChOut::Done { kids: st.kids, end: true, pos: p, tag: itag }
                    }
                },
                _ => ch_scan(h, tag, start, p + 1, ChSt { t1: p, ..st }),
            }
        } else if !spec_is_space(q) {
            match st.process {
                ChProc::Idle => ch_scan(
                    h,
                    tag,
                    start,
                    p + 1,
                    ChSt { process: ChProc::Plain, c0: p, c1: p, ..st },
                ),
                ChProc::Plain => ch_scan(h, tag, start, p + 1, ChSt { c1: p, ..st }),
                _ => ch_scan(h, tag, start, p + 1, st),
            }
        } else {
            ch_scan(h, tag, start, p + 1, st)
        }
    }
}

/// What the children scanner yields on `h` from `start` under `tag`,
/// starting from the children `kids`.
pub open spec fn ch_result(h: Seq<char>, tag: Seq<char>, start: int, kids: Seq<TreeV>) -> ChOut
    decreases h.len() - start, 2int, 0int,
    when 0 <= start <= h.len()
{
    ch_scan(h, tag, start, start, ch_init(start, kids))
}

/// The run of children scans that the tree parser performs after the opening
/// tag: scan from `pos`, and rescan from where a nested parse stopped until a
/// scan reports the tag closed.
pub open spec fn rde_loop(
    h: Seq<char>,
    tag: Seq<char>,
    attrs: Map<Seq<char>, Seq<char>>,
    pos: int,
    kids: Seq<TreeV>,
) -> RdeOut
    decreases h.len() - pos, 3int, 0int,
    when 0 <= pos <= h.len()
{
    match ch_result(h, tag, pos, kids) {
        ChOut::Bad { err } => RdeOut::Bad { err },
        ChOut::Done { kids: kids2, end, pos: pos2, tag: tag2 } => {
            if end {
                let ext = if pos2 + 1 != h.len() {
                    Some(ExtraV { end: false, pos: pos2, tag: tag2 })
                } else {
                    None::<ExtraV>
                };
                RdeOut::Good { tree: TreeV { tag, attrs, children: kids2 }, ext }
            } else if pos < pos2 <= h.len() {
                rde_loop(h, tag, attrs, pos2, kids2)
            } else {
                RdeOut::Bad { err: dead_end() }
            }
        },
    }
}

/// What parsing `h` from `start` yields: the empty tree on empty input, one
/// plain-text leaf when no `</` occurs anywhere, and otherwise the tree
/// assembled from the leading tag and the scanned children, with a
/// continuation signal when the scan stopped short of the end.
pub open spec fn rde_spec(h: Seq<char>, start: int) -> RdeOut
    decreases h.len() - start, 0int, 0int,
    when 0 <= start <= h.len()
{
    if start == h.len() {
        RdeOut::Good { tree: empty_tree(), ext: None::<ExtraV> }
    } else if !has_close(h, start) {
        RdeOut::Good { tree: plain_of(h.subrange(start, h.len() as int)), ext: None::<ExtraV> }
    } else {
        match tag_result(h, start) {
            TagOut::Bad { err } => RdeOut::Bad { err },
            TagOut::Good { tag, attrs, pos } => {
                if start < pos <= h.len() {
                    rde_loop(h, tag, attrs, pos, Seq::empty())
                } else {
                    RdeOut::Bad { err: dead_end() }
                }
            },
        }
    }
}

} // verus!

verus! {

/// The name inside the close-tag span `a..b` of `h` (see [`close_name`]).
fn close_name_exec(h: &[char], a: usize, b: usize) -> (r: Vec<char>)
    requires
        a <= b <= h@.len(),
    ensures
        r@ == close_name(h@.subrange(a as int, b as int)),
{
    let w = trimmed(h, a, b);
    if w.len() >= 1 {
        let r = trimmed(w.as_slice(), 1, w.len());
        r
    } else {
        let r: Vec<char> = Vec::new();
        proof {
            assert(r@ =~= Seq::<char>::empty());
        }
        r
    }
}

/// Whether a `</` close-tag marker occurs in `h` at or after `start`.
pub fn has_close_marker(h: &[char], start: usize) -> (r: bool)
    requires
        start <= h@.len(),
    ensures
        r == has_close(h@, start as int),
{
    let n = h.len();
    if n == 0 {
        return false;
    }
    let mut i = start;
    while i < n - 1
        invariant
            start <= i <= h@.len(),
            n == h@.len(),
            n >= 1,
            forall|j: int| start <= j < i ==> !((#[trigger] h@[j]) == '<' && h@[j + 1] == '/'),
        decreases n - i,
    {
        if h[i] == '<' && h[i + 1] == '/' {
            return true;
        }
        i = i + 1;
    }
    proof {
        if has_close(h@, start as int) {
            let j = choose|j: int|
                start <= j && j + 1 < h@.len() && (#[trigger] h@[j]) == '<' && h@[j + 1] == '/';
            assert(!(h@[j] == '<' && h@[j + 1] == '/'));
        }
    }
    false
}

/// The view of an optional continuation signal.
pub open spec fn opt_extra_view(o: Option<Extra>) -> Option<ExtraV> {
    match o {
        Some(e) => Some(e@),
        None => None::<ExtraV>,
    }
}

/// Scan a run of sibling fragments of `h` from `start` under the open tag
/// `tag_name`, appending every child found to `children`: nested elements are
/// parsed recursively, and a contiguous text run that a confirmed close tag
/// froze becomes a plain-text leaf.
pub fn ch(tag_name: &[char], h: &[char], start: usize, children: &mut Vec<Tree>) -> (r: Result<
    Extra,
    ParseError,
>)
    requires
        start <= h@.len(),
    ensures
        match r {
            Ok(e) => {
                &&& ch_result(h@, tag_name@, start as int, trees_view(old(children)@))
                    == (ChOut::Done {
                    kids: trees_view(final(children)@),
                    end: e.end,
                    pos: e.pos as int,
                    tag: e.tag@,
                })
                &&& start <= e.pos <= h@.len()
                &&& !e.end ==> start < e.pos
            },
            Err(e) => ch_result(h@, tag_name@, start as int, trees_view(old(children)@))
                == (ChOut::Bad { err: e@ }),
        },
    decreases h@.len() - start, 1int,
{
    let ghost kids0 = trees_view(old(children)@);
    let mut process = ChProc::Idle;
    let mut t0 = start;
    let mut t1 = start;
    let mut c0 = start;
    let mut c1 = start;
    let mut p = start;
    while p < h.len()
        invariant
            start <= p <= h@.len(),
            start <= t0 <= p,
            start <= t1 <= p,
            start <= c0 <= c1 <= p,
            kids0 == trees_view(old(children)@),
            process == ChProc::CloseTag ==> h@[t0 as int] == '<',
            ch_result(h@, tag_name@, start as int, kids0) == ch_scan(
                h@,
                tag_name@,
                start as int,
                p as int,
                ChSt {
                    process,
                    t0: t0 as int,
                    t1: t1 as int,
                    c0: c0 as int,
                    c1: c1 as int,
                    kids: trees_view(children@),
                },
            ),
        decreases h@.len() - p,
    {
        let q = h[p];
        if q == '<' {
            if process == ChProc::Plain {
                c1 = p;
            }
            process = ChProc::BeginTag;
            t0 = p;
            t1 = p;
        } else if q == '/' {
            if h[t0] == '<' {
                process = ChProc::CloseTag;
            } else if process != ChProc::Plain {
                let fragment = extract(h, start, h.len());
                return Err(ParseError::UnexpectedCloseMarker { fragment });
            }
        } else if q == '>' {
            match process {
                ChProc::BeginTag => {
                    let ghost cs_before = children@;
                    match Tree::rde(h, t0) {
                        Err(e) => {
                            return Err(e);
                        },
                        Ok((tree, ext)) => {
                            children.push(tree);
                            proof {
                                assert(children@.drop_last() =~= cs_before);
                            }
                            match ext {
                                Some(cext) => {
                                    return Ok(
                                        Extra { end: false, pos: cext.pos, tag: cext.tag },
                                    );
                                },
                                None => {
                                    t1 = p;
                                },
                            }
                        },
                    }
                },
                ChProc::CloseTag => {
                    t1 = p;
                    proof {
                        assert(t0 < p);
                    }
                    let itag = close_name_exec(h, t0 + 1, p);
                    if !eq_chars(itag.as_slice(), tag_name) {
                        let expected = extract(tag_name, 0, tag_name.len());
                        let fragment = extract(h, start, h.len());
                        proof {
                            assert(expected@ =~= tag_name@);
                        }
                        return Err(
                            ParseError::MismatchedCloseTag { expected, found: itag, fragment },
                        );
                    }
                    if c1 - c0 != 0 {
                        let ghost cs_before = children@;
                        let text = extract(h, c0, c1);
                        children.push(plain(text));
                        proof {
                            assert(children@.drop_last() =~= cs_before);
                        }
                        return Ok(Extra { end: true, pos: p, tag: itag });
                    } else {
                        return Ok(Extra { end: true, pos: p, tag: itag });
                    }
                },
                _ => {
                    t1 = p;
                },
            }
        } else if !is_space(q) {
            match process {
                ChProc::Idle => {
                    process = ChProc::Plain;
                    c0 = p;
                    c1 = p;
                },
                ChProc::Plain => {
                    c1 = p;
                },
                _ => {},
            }
        }
        p = p + 1;
    }
    let tag_copy = extract(tag_name, 0, tag_name.len());
    proof {
        assert(tag_copy@ =~= tag_name@);
    }
    Ok(Extra { end: true, pos: h.len(), tag: tag_copy })
}

} // verus!

verus! {

impl Tree {
    /// Parse one tree from `h` beginning at `start`.
    ///
    /// Empty input yields the default empty tree; input without any `</`
    /// marker yields one plain-text leaf holding the whole fragment; any
    /// other input is tokenized and scanned for children. The continuation
    /// signal reports, to a nested caller, how far the scan consumed when it
    /// stopped short of the end of the input.
    pub fn rde(h: &[char], start: usize) -> (r: Result<(Tree, Option<Extra>), ParseError>)
        requires
            start <= h@.len(),
        ensures
            match r {
                Ok(out) => {
                    &&& rde_spec(h@, start as int) == (RdeOut::Good {
                        tree: out.0@,
                        ext: opt_extra_view(out.1),
                    })
                    &&& match out.1 {
                        Some(e) => start < e.pos <= h@.len(),
                        None => true,
                    }
                },
                Err(e) => rde_spec(h@, start as int) == (RdeOut::Bad { err: e@ }),
            },
            start == h@.len() ==> (r matches Ok(out) && out.0@ == empty_tree() && out.1 is None),
            start < h@.len() && !has_close(h@, start as int) ==> (r matches Ok(out) && out.0@
                == plain_of(h@.subrange(start as int, h@.len() as int)) && out.1 is None),
        decreases h@.len() - start, 0int,
    {
        if start == h.len() {
            let t = Tree::default();
            return Ok((t, None));
        }
        if !has_close_marker(h, start) {
            let text = extract(h, start, h.len());
            return Ok((plain(text), None));
        }
        let (tname, attrs, pos0) = match tag(h, start) {
            Ok(x) => x,
            Err(e) => {
                return Err(e);
            },
        };
        let mut children: Vec<Tree> = Vec::new();
        let mut pos = pos0;
        proof {
            assert(trees_view(children@) =~= Seq::<TreeV>::empty());
        }
        loop
            invariant
                start < pos <= h@.len(),
                start < h@.len(),
                has_close(h@, start as int),
                attrs.wf(),
                rde_spec(h@, start as int) == rde_loop(
                    h@,
                    tname@,
                    attrs@,
                    pos as int,
                    trees_view(children@),
                ),
            decreases h@.len() - pos,
        {
            let cext = match ch(tname.as_slice(), h, pos, &mut children) {
                Ok(c) => c,
                Err(e) => {
                    return Err(e);
                },
            };
            pos = cext.pos;
            if cext.end {
                let ext = if pos != h.len() - 1 {
                    Some(Extra { end: false, pos, tag: cext.tag })
                } else {
                    None
                };
                return Ok((Tree { attrs, tag: tname, children }, ext));
            }
        }
    }

    /// Parse one tree from a markup string, dropping the continuation signal.
    pub fn de(h: &str) -> (r: Result<Tree, ParseError>)
        ensures
            match r {
                Ok(t) => rde_spec(h@, 0) matches RdeOut::Good { tree, .. } && tree == t@,
                Err(e) => rde_spec(h@, 0) == (RdeOut::Bad { err: e@ }),
            },
            h@.len() == 0 ==> (r matches Ok(t) && t@ == empty_tree()),
            h@.len() > 0 && !has_close(h@, 0) ==> (r matches Ok(t) && t@ == plain_of(h@)),
    {
        let v = crate::text::chars_of(h);
        match Tree::rde(v.as_slice(), 0) {
            Ok((t, _)) => {
                proof {
                    if h@.len() > 0 && !has_close(h@, 0) {
                        assert(h@.subrange(0, h@.len() as int) =~= h@);
                    }
                }
                Ok(t)
            },
            Err(e) => Err(e),
        }
    }
}

} // verus!
