//! Labels (the names of files and directories) and paths (non-empty
//! sequences of labels).
use vstd::prelude::*;
use vstd::string::{StrSliceExecFns, StringExecFns};

use crate::file_system::error::{self, Error, LabelError};
use crate::nonempty::{self, NonEmpty};
use crate::strings::chars_of;

pub mod unsound;

verus! {

/// The characters of the root label, `"~"`.
pub open spec fn root_label_view() -> Seq<char> {
    seq!['~']
}

/// A label's text is non-empty and holds no `/`.
pub open spec fn is_valid_label(s: Seq<char>) -> bool {
    s.len() > 0 && !s.contains('/')
}

/// `s` without its trailing `/` characters.
pub open spec fn trim_trailing_slashes(s: Seq<char>) -> Seq<char>
    decreases s.len(),
{
    if s.len() > 0 && s.last() == '/' {
        trim_trailing_slashes(s.drop_last())
    } else {
        s
    }
}

/// The pieces of `s` between the `/` characters; the empty text has one
/// empty piece.
pub open spec fn split_on_slash(s: Seq<char>) -> Seq<Seq<char>>
    decreases s.len(),
{
    if s.len() == 0 {
        seq![Seq::<char>::empty()]
    } else {
        let pieces = split_on_slash(s.drop_last());
        if s.last() == '/' {
            pieces.push(Seq::<char>::empty())
        } else {
            pieces.update(pieces.len() - 1, pieces.last().push(s.last()))
        }
    }
}

/// The labels' texts that the path text `s` names.
pub open spec fn path_segments(s: Seq<char>) -> Seq<Seq<char>> {
    split_on_slash(trim_trailing_slashes(s))
}

/// `s` is the text of a path: none of its segments is empty.
pub open spec fn parses_as_path(s: Seq<char>) -> bool {
    forall|i: int| 0 <= i < path_segments(s).len() ==> #[trigger] path_segments(s)[i].len() > 0
}

/// `split_on_slash` always gives at least one piece, and no piece holds a
/// `/`.
pub proof fn lemma_split_on_slash(s: Seq<char>)
    ensures
        split_on_slash(s).len() >= 1,
        forall|i: int|
            0 <= i < split_on_slash(s).len() ==> !(#[trigger] split_on_slash(s)[i]).contains('/'),
    decreases s.len(),
{
    if s.len() > 0 {
        lemma_split_on_slash(s.drop_last());
        let pieces = split_on_slash(s.drop_last());
        if s.last() != '/' {
            let last = pieces.last().push(s.last());
            assert forall|i: int| 0 <= i < split_on_slash(s).len() implies !(#[trigger] split_on_slash(
                s,
            )[i]).contains('/') by {
                if i == pieces.len() - 1 {
                    if last.contains('/') {
                        let k = choose|k: int| 0 <= k < last.len() && last[k] == '/';
                        assert(pieces.last()[k] == '/');
                    }
                } else {
                    assert(split_on_slash(s)[i] == pieces[i]);
                }
            }
        } else {
            assert forall|i: int| 0 <= i < split_on_slash(s).len() implies !(#[trigger] split_on_slash(
                s,
            )[i]).contains('/') by {
                if i < pieces.len() {
                    assert(split_on_slash(s)[i] == pieces[i]);
                }
            }
        }
    }
}

/// The pieces `parts` joined by `/`.
pub open spec fn join_slash(parts: Seq<Seq<char>>) -> Seq<char>
    decreases parts.len(),
{
    if parts.len() == 0 {
        Seq::empty()
    } else if parts.len() == 1 {
        parts[0]
    } else {
        join_slash(parts.drop_last()) + seq!['/'] + parts.last()
    }
}

/// Joining the pieces of a text between its `/`s gives the text back.
pub proof fn lemma_join_split(s: Seq<char>)
    ensures
        join_slash(split_on_slash(s)) == s,
    decreases s.len(),
{
    if s.len() > 0 {
        let init = s.drop_last();
        lemma_join_split(init);
        lemma_split_on_slash(init);
        let pieces = split_on_slash(init);
        if s.last() == '/' {
            assert(pieces.push(Seq::<char>::empty()).drop_last() =~= pieces);
            assert(init + seq!['/'] + Seq::<char>::empty() =~= s);
        } else {
            let last = pieces.last().push(s.last());
            let up = pieces.update(pieces.len() - 1, last);
            assert(up.drop_last() =~= pieces.drop_last());
            if pieces.len() == 1 {
                assert(join_slash(pieces) == pieces[0]);
                assert(init.push(s.last()) =~= s);
            } else {
                assert(join_slash(pieces) == join_slash(pieces.drop_last()) + seq!['/'] + pieces.last());
                assert(join_slash(up) == join_slash(up.drop_last()) + seq!['/'] + up.last());
                assert(up.last() == last);
                assert(init =~= join_slash(pieces.drop_last()) + seq!['/'] + pieces.last());
                assert(join_slash(pieces.drop_last()) + seq!['/'] + last =~= init.push(s.last()));
                assert(init.push(s.last()) =~= s);
            }
        }
    }
}

/// Splitting `x` followed by a text `b` with no `/` in it extends the last
/// piece of `x` by `b`.
proof fn lemma_split_append(x: Seq<char>, b: Seq<char>)
    requires
        !b.contains('/'),
    ensures
        split_on_slash(x + b) == split_on_slash(x).update(
            split_on_slash(x).len() - 1,
            split_on_slash(x).last() + b,
        ),
    decreases b.len(),
{
    lemma_split_on_slash(x);
    let px = split_on_slash(x);
    if b.len() == 0 {
        assert(x + b =~= x);
        assert(px.last() + b =~= px.last());
        assert(px.update(px.len() - 1, px.last()) =~= px);
    } else {
        let bi = b.drop_last();
        assert(!bi.contains('/')) by {
            if bi.contains('/') {
                let k = choose|k: int| 0 <= k < bi.len() && bi[k] == '/';
                assert(b[k] == '/');
            }
        }
        lemma_split_append(x, bi);
        assert((x + b).drop_last() =~= x + bi);
        assert((x + b).last() == b.last());
        assert(b.last() != '/') by {
            assert(b[b.len() - 1] == b.last());
        }
        let pi = split_on_slash(x + bi);
        assert(pi.len() == px.len());
        assert(pi.last() == px.last() + bi);
        assert(pi.update(pi.len() - 1, pi.last().push(b.last())) =~= px.update(
            px.len() - 1,
            px.last() + b,
        )) by {
            assert(b =~= bi.push(b.last()));
            assert((px.last() + bi).push(b.last()) =~= px.last() + b);
        }
    }
}

/// A text with no `/` in it is a single piece.
pub proof fn lemma_split_single(a: Seq<char>)
    requires
        !a.contains('/'),
    ensures
        split_on_slash(a) == seq![a],
{
    lemma_split_append(Seq::empty(), a);
    assert(Seq::<char>::empty() + a =~= a);
    assert(seq![Seq::<char>::empty()].update(0, Seq::<char>::empty() + a) =~= seq![a]);
}

/// The pieces of `a`, a `/` and `b` are the pieces of `a` followed by those
/// of `b`.
pub proof fn lemma_split_concat(a: Seq<char>, b: Seq<char>)
    ensures
        split_on_slash(a + seq!['/'] + b) == split_on_slash(a) + split_on_slash(b),
    decreases b.len(),
{
    let s = a + seq!['/'] + b;
    if b.len() == 0 {
        assert(s.drop_last() =~= a);
        assert(s.last() == '/');
        assert(split_on_slash(a).push(Seq::<char>::empty()) =~= split_on_slash(a) + seq![
            Seq::<char>::empty(),
        ]);
    } else {
        let bi = b.drop_last();
        lemma_split_concat(a, bi);
        lemma_split_on_slash(bi);
        assert(s.drop_last() =~= a + seq!['/'] + bi);
        assert(s.last() == b.last());
        let pa = split_on_slash(a);
        let pb = split_on_slash(bi);
        if b.last() == '/' {
            assert((pa + pb).push(Seq::<char>::empty()) =~= pa + pb.push(Seq::<char>::empty()));
        } else {
            let joined = pa + pb;
            assert(joined.last() == pb.last());
            assert(joined.update(joined.len() - 1, joined.last().push(b.last())) =~= pa + pb.update(
                pb.len() - 1,
                pb.last().push(b.last()),
            ));
        }
    }
}

/// Splitting the names joined by `/` gives the names back, when there is at
/// least one name and none holds a `/`.
pub proof fn lemma_split_join(parts: Seq<Seq<char>>)
    requires
        parts.len() > 0,
        forall|i: int| 0 <= i < parts.len() ==> !(#[trigger] parts[i]).contains('/'),
    ensures
        split_on_slash(join_slash(parts)) == parts,
    decreases parts.len(),
{
    if parts.len() == 1 {
        lemma_split_append(Seq::empty(), parts[0]);
        assert(Seq::<char>::empty() + parts[0] =~= parts[0]);
        assert(split_on_slash(Seq::<char>::empty()).last() + parts[0] =~= parts[0]);
        assert(seq![Seq::<char>::empty()].update(0, parts[0]) =~= parts);
    } else {
        let init = parts.drop_last();
        lemma_split_join(init);
        let j = join_slash(init);
        let js = j + seq!['/'];
        assert(js.drop_last() =~= j);
        assert(split_on_slash(js) == init.push(Seq::<char>::empty()));
        lemma_split_append(js, parts.last());
        assert(Seq::<char>::empty() + parts.last() =~= parts.last());
        assert(init.push(Seq::<char>::empty()).update(init.len() as int, parts.last()) =~= parts);
    }
}


/// A non-empty sequence of valid labels, written with `/` between them,
/// reads back as the same labels.
pub proof fn lemma_path_text_round_trip(parts: Seq<Seq<char>>)
    requires
        parts.len() > 0,
        forall|i: int| 0 <= i < parts.len() ==> is_valid_label(#[trigger] parts[i]),
    ensures
        parses_as_path(join_slash(parts)),
        path_segments(join_slash(parts)) == parts,
{
    let j = join_slash(parts);
    assert forall|i: int| 0 <= i < parts.len() implies !(#[trigger] parts[i]).contains('/') by {
        assert(is_valid_label(parts[i]));
    }
    lemma_split_join(parts);
    let last = parts.last();
    assert(is_valid_label(parts[parts.len() - 1]));
    assert(last.len() > 0);
    assert(last[last.len() - 1] != '/') by {
        if last[last.len() - 1] == '/' {
            assert(last.contains('/'));
        }
    }
    if parts.len() == 1 {
        assert(j == last);
    } else {
        let pre = join_slash(parts.drop_last()) + seq!['/'];
        assert(j == pre + last);
        assert(j.last() == last[last.len() - 1]);
    }
    assert(j.len() > 0 && j.last() != '/');
    assert(trim_trailing_slashes(j) == j);
    assert forall|i: int| 0 <= i < path_segments(j).len() implies #[trigger] path_segments(j)[i].len() > 0 by {
        assert(is_valid_label(parts[i]));
    }
}

/// `Label` is a special case of a `String` identifier for directory and file
/// names, and is used in [`Path`] as the component parts of a path.
///
/// A `Label` is not empty and does not contain `/`s, except that the
/// root label is `"~"`.
#[derive(Debug, PartialEq, Eq, PartialOrd, Ord, Hash)]
pub struct Label {
    pub(crate) label: String,
}

impl View for Label {
    type V = Seq<char>;

    closed spec fn view(&self) -> Seq<char> {
        self.label@
    }
}

impl Clone for Label {
    fn clone(&self) -> (r: Self)
        ensures
            r == *self,
    {
        Label { label: self.label.clone() }
    }
}

impl Label {
    /// The root label for the root directory, i.e. `"~"`.
    pub fn root() -> (r: Self)
        ensures
            r@ == root_label_view(),
    {
        let s = "~";
        proof {
            reveal_strlit("~");
        }
        Label { label: s.to_owned() }
    }

    /// Whether this is the root label `"~"`.
    pub fn is_root(&self) -> (b: bool)
        ensures
            b == (self@ == root_label_view()),
    {
        let chars = chars_of(self.label.as_str());
        if chars.len() == 1 && chars[0] == '~' {
            assert(chars@ =~= root_label_view());
            true
        } else {
            false
        }
    }

    /// The label as a `String`.
    pub fn to_string(&self) -> (r: String)
        ensures
            r@ == self@,
    {
        self.label.clone()
    }

    /// The text of the label.
    pub fn as_str(&self) -> (s: &str)
        ensures
            s@ == self@,
    {
        self.label.as_str()
    }

    /// Parse a label: it fails on the empty text and on text that holds a
    /// `/`.
    pub fn try_from(item: &str) -> (r: Result<Label, Error>)
        ensures
            r is Ok <==> is_valid_label(item@),
            r matches Ok(l) ==> l@ == item@,
            item@.len() == 0 ==> r == Err::<Label, Error>(Error::Label(LabelError::Empty)),
            item@.len() > 0 && item@.contains('/') ==> (r matches Err(
                Error::Label(LabelError::ContainsSlash(s)),
            ) && s@ == item@),
    {
        let chars = chars_of(item);
        if chars.len() == 0 {
            return Err(error::empty_label());
        }
        let mut i: usize = 0;
        while i < chars.len()
            invariant
                i <= chars@.len(),
                chars@ == item@,
                forall|j: int| 0 <= j < i ==> chars@[j] != '/',
            decreases chars@.len() - i,
        {
            if chars[i] == '/' {
                return Err(error::label_has_slash(item));
            }
            i = i + 1;
        }
        Ok(Label { label: item.to_owned() })
    }
}

impl core::str::FromStr for Label {
    type Err = Error;

    /// Parse a label from text; see `Label::try_from`.
    fn from_str(item: &str) -> (r: Result<Self, Self::Err>)
        ensures
            r is Ok <==> is_valid_label(item@),
            r matches Ok(l) ==> l@ == item@,
            item@.len() == 0 ==> r == Err::<Label, Error>(Error::Label(LabelError::Empty)),
            item@.len() > 0 && item@.contains('/') ==> (r matches Err(
                Error::Label(LabelError::ContainsSlash(s)),
            ) && s@ == item@),
    {
        Label::try_from(item)
    }
}

/// The texts of a sequence of labels.
pub open spec fn labels_view(labels: Seq<Label>) -> Seq<Seq<char>> {
    labels.map_values(|l: Label| l@)
}

/// A non-empty sequence of [`Label`]s that defines a path to a directory or
/// file.
#[derive(Debug, PartialEq, Eq, Hash)]
pub struct Path(pub NonEmpty<Label>);

impl View for Path {
    type V = Seq<Seq<char>>;

    open spec fn view(&self) -> Seq<Seq<char>> {
        labels_view(self.0@)
    }
}

/// Copy a slice of labels.
pub fn clone_labels(labels: &[Label]) -> (r: Vec<Label>)
    ensures
        r@ == labels@,
{
    let mut r: Vec<Label> = Vec::new();
    let mut i: usize = 0;
    while i < labels.len()
        invariant
            i <= labels@.len(),
            r@ == labels@.take(i as int),
        decreases labels@.len() - i,
    {
        r.push(labels[i].clone());
        i = i + 1;
        assert(r@ =~= labels@.take(i as int));
    }
    assert(labels@.take(i as int) =~= labels@);
    r
}

impl Clone for Path {
    fn clone(&self) -> (r: Self)
        ensures
            r.0@ == self.0@,
    {
        Path(NonEmpty::from_parts(self.0.head.clone(), clone_labels(self.0.tail.as_slice())))
    }
}

impl Path {
    /// The path made of one label.
    pub fn new(label: Label) -> (r: Path)
        ensures
            r.0@ == seq![label],
    {
        Path(NonEmpty::new(label))
    }

    /// The labels of the path joined by `/`.
    pub fn to_string(&self) -> (r: String)
        ensures
            r@ == join_slash(self@),
    {
        let ghost v = self@;
        let mut r = String::new();
        r.append(self.0.head.as_str());
        proof {
            assert(v.take(1) =~= seq![self.0.head@]);
        }
        let mut i: usize = 0;
        while i < self.0.tail.len()
            invariant
                i <= self.0.tail@.len(),
                v == self@,
                v == labels_view(self.0@),
                r@ == join_slash(v.take(i + 1)),
            decreases self.0.tail@.len() - i,
        {
            proof {
                assert(v.take(i + 2).drop_last() =~= v.take(i + 1));
                assert(v.take(i + 2).last() == self.0.tail@[i as int]@);
            }
            let slash = "/";
            proof {
                reveal_strlit("/");
            }
            r.append(slash);
            r.append(self.0.tail[i].as_str());
            i = i + 1;
        }
        proof {
            assert(v.take(i + 1) =~= v);
        }
        r
    }

    /// The root path: the single root label.
    pub fn root() -> (r: Self)
        ensures
            r@ == seq![root_label_view()],
    {
        let r = Path(NonEmpty::new(Label::root()));
        assert(r@ =~= seq![root_label_view()]);
        r
    }

    /// Check that this is the root path.
    pub fn is_root(&self) -> (b: bool)
        ensures
            b == (self@ == seq![root_label_view()]),
    {
        if self.0.tail.len() == 0 {
            let b = self.0.head.is_root();
            assert(self@ =~= seq![self.0.head@]);
            if b {
                assert(self@ =~= seq![root_label_view()]);
            } else {
                assert(self@[0] != seq![root_label_view()][0]);
            }
            b
        } else {
            assert(self@.len() > 1);
            false
        }
    }

    /// Append the labels of `path` to this path; `path` is left as it was.
    pub fn append(&mut self, path: &mut Self)
        ensures
            final(self).0@ == old(self).0@ + old(path).0@,
            *final(path) == *old(path),
    {
        let mut other = clone_labels(path.0.tail.as_slice());
        other.insert(0, path.0.head.clone());
        assert(other@ =~= path.0@);
        self.0.append(&mut other);
    }

    /// Push a new label onto the end of the path.
    pub fn push(&mut self, label: Label)
        ensures
            final(self).0@ == old(self).0@.push(label),
    {
        self.0.push(label)
    }

    /// Remove the last label, unless it is the only one.
    pub fn pop(&mut self) -> (r: Option<Label>)
        ensures
            old(self).0@.len() == 1 ==> r is None && final(self).0@ == old(self).0@,
            old(self).0@.len() > 1 ==> r == Some(old(self).0@.last()) && final(self).0@
                == old(self).0@.drop_last(),
    {
        self.0.pop()
    }

    /// The labels of the path, in order.
    pub fn iter(&self) -> (r: Vec<&Label>)
        ensures
            r@.len() == self.0@.len(),
            forall|i: int| 0 <= i < r@.len() ==> *(#[trigger] r@[i]) == self.0@[i],
    {
        let mut r: Vec<&Label> = Vec::new();
        r.push(&self.0.head);
        let mut i: usize = 0;
        while i < self.0.tail.len()
            invariant
                i <= self.0.tail@.len(),
                r@.len() == i + 1,
                forall|j: int| 0 <= j < r@.len() ==> *(#[trigger] r@[j]) == self.0@[j],
            decreases self.0.tail@.len() - i,
        {
            r.push(&self.0.tail[i]);
            i = i + 1;
        }
        r
    }

    /// The first label and the labels after it.
    pub fn split_first(&self) -> (r: (&Label, &[Label]))
        ensures
            *r.0 == self.0@[0],
            r.1@ == self.0@.drop_first(),
    {
        self.0.split_first()
    }

    /// The labels before the last one, and the last one.
    pub fn split_last(&self) -> (r: (Vec<Label>, Label))
        ensures
            r.0@ == self.0@.drop_last(),
            r.1 == self.0@.last(),
    {
        let r = nonempty::split_last(&self.0);
        assert(r.0@ =~= self.0@.drop_last());
        r
    }

    /// The path made of `root` followed by `labels`.
    pub fn from_labels(root: Label, labels: &[Label]) -> (r: Path)
        ensures
            r.0@ == seq![root] + labels@,
    {
        Path(NonEmpty::from_parts(root, clone_labels(labels)))
    }

    /// The path made of the root label followed by `labels`.
    pub fn with_root(labels: &[Label]) -> (r: Path)
        ensures
            r.0@.len() == labels@.len() + 1,
            r.0@[0]@ == root_label_view(),
            r.0@.drop_first() == labels@,
    {
        let r = Path::from_labels(Label::root(), labels);
        assert(r.0@.drop_first() =~= labels@);
        r
    }

    /// The labels of the path, in order.
    pub fn into_labels(self) -> (r: Vec<Label>)
        ensures
            r@ == self.0@,
    {
        self.0.into_vec()
    }

    /// Parse a path from text: trailing `/`s are dropped, the rest is split
    /// at each `/`, and every piece must be a label. It fails, with the
    /// error of an empty label, when a piece is empty.
    pub fn try_from(item: &str) -> (r: Result<Path, Error>)
        ensures
            r is Ok <==> parses_as_path(item@),
            r matches Ok(p) ==> p@ == path_segments(item@),
            r is Err ==> r == Err::<Path, Error>(Error::Label(LabelError::Empty)),
    {
        let chars = chars_of(item);
        let ghost s = item@;
        // Drop the trailing slashes.
        let mut end: usize = chars.len();
        assert(s.take(end as int) =~= s);
        while end > 0 && chars[end - 1] == '/'
            invariant
                end <= chars@.len(),
                chars@ == s,
                trim_trailing_slashes(s) == trim_trailing_slashes(s.take(end as int)),
            decreases end,
        {
            proof {
                assert(s.take(end as int).drop_last() =~= s.take(end - 1));
            }
            end = end - 1;
        }
        let ghost t = s.take(end as int);
        assert(trim_trailing_slashes(t) == t);
        let mut labels: Vec<Label> = Vec::new();
        let mut start: usize = 0;
        let mut i: usize = 0;
        assert(t.take(0) =~= Seq::<char>::empty());
        assert(t.subrange(0, 0) =~= Seq::<char>::empty());
        assert(labels_view(labels@).push(t.subrange(0, 0)) =~= split_on_slash(t.take(0)));
        while i < end
            invariant
                start <= i <= end,
                end <= chars@.len(),
                chars@ == s,
                s == item@,
                trim_trailing_slashes(s) == t,
                t == s.take(end as int),
                labels_view(labels@).push(t.subrange(start as int, i as int)) == split_on_slash(
                    t.take(i as int),
                ),
                forall|j: int| 0 <= j < labels@.len() ==> (#[trigger] labels@[j])@.len() > 0,
            decreases end - i,
        {
            proof {
                assert(t.take(i + 1).drop_last() =~= t.take(i as int));
                assert(t.take(i + 1).last() == chars@[i as int]);
            }
            if chars[i] == '/' {
                if start == i {
                    proof {
                        lemma_split_extends(t, i + 1, end as int);
                        let p = split_on_slash(t.take(i + 1));
                        assert(p[p.len() - 2].len() == 0);
                        assert(t.take(end as int) =~= t);
                        assert(path_segments(s)[p.len() - 2].len() == 0);
                    }
                    return Err(error::empty_label());
                }
                let piece = item.substring_char(start, i).to_owned();
                assert(piece@ =~= t.subrange(start as int, i as int));
                let ghost prev = labels@;
                labels.push(Label { label: piece });
                assert(labels_view(labels@) =~= labels_view(prev).push(
                    t.subrange(start as int, i as int),
                ));
                start = i + 1;
                assert(t.subrange(start as int, i + 1) =~= Seq::<char>::empty());
            } else {
                assert(t.subrange(start as int, i + 1) =~= t.subrange(start as int, i as int).push(
                    chars@[i as int],
                ));
            }
            i = i + 1;
        }
        assert(t.take(end as int) =~= t);
        if start == end {
            proof {
                let segs = path_segments(s);
                assert(segs == split_on_slash(t));
                assert(t.subrange(start as int, end as int).len() == 0);
                assert(segs[segs.len() - 1].len() == 0);
            }
            return Err(error::empty_label());
        }
        let piece = item.substring_char(start, end).to_owned();
        assert(piece@ =~= t.subrange(start as int, end as int));
        let ghost prev = labels@;
        labels.push(Label { label: piece });
        assert(labels_view(labels@) =~= labels_view(prev).push(t.subrange(start as int, end as int)));
        match NonEmpty::from_vec(labels) {
            Some(ne) => Ok(Path(ne)),
            None => Err(error::empty_label()),
        }
    }
}

impl core::str::FromStr for Path {
    type Err = Error;

    /// Parse a path from text; see `Path::try_from`.
    fn from_str(item: &str) -> (r: Result<Self, Self::Err>)
        ensures
            r is Ok <==> parses_as_path(item@),
            r matches Ok(p) ==> p@ == path_segments(item@),
            r is Err ==> r == Err::<Path, Error>(Error::Label(LabelError::Empty)),
    {
        Path::try_from(item)
    }
}

/// Pieces of a prefix of `t` other than its last one are pieces of any longer
/// prefix of `t` too.
proof fn lemma_split_extends(t: Seq<char>, k: int, m: int)
    requires
        0 <= k <= m <= t.len(),
    ensures
        split_on_slash(t.take(m)).len() >= split_on_slash(t.take(k)).len(),
        forall|j: int|
            0 <= j < split_on_slash(t.take(k)).len() - 1 ==> #[trigger] split_on_slash(t.take(m))[j]
                == split_on_slash(t.take(k))[j],
    decreases m - k,
{
    if k < m {
        lemma_split_extends(t, k, m - 1);
        assert(t.take(m).drop_last() =~= t.take(m - 1));
        lemma_split_on_slash(t.take(m - 1));
    }
}

} // verus!
