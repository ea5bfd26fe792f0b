use vstd::prelude::*;
use vstd::string::*;

use crate::error::CatalogError;

verus! {

/// The character that separates the segments of a rendered name.
pub open spec fn separator() -> char {
    '.'
}

/// A segment is non-empty and holds no separator.
pub open spec fn valid_segment(seg: Seq<char>) -> bool {
    seg.len() > 0 && !seg.contains(separator())
}

/// A qualified name has at least one segment, and each one is valid.
pub open spec fn valid_segments(segs: Seq<Seq<char>>) -> bool {
    &&& segs.len() >= 1
    &&& forall|i: int| 0 <= i < segs.len() ==> valid_segment(#[trigger] segs[i])
}

/// The canonical text of a name: its segments joined by the separator.
pub open spec fn join_segments(segs: Seq<Seq<char>>) -> Seq<char>
    decreases segs.len(),
{
    if segs.len() == 0 {
        Seq::empty()
    } else if segs.len() == 1 {
        segs[0]
    } else {
        join_segments(segs.drop_last()) + seq![separator()] + segs.last()
    }
}

/// The pieces of a text between its separators; never empty.
pub open spec fn split_text(s: Seq<char>) -> Seq<Seq<char>>
    decreases s.len(),
{
    if s.len() == 0 {
        seq![Seq::empty()]
    } else {
        let before = split_text(s.drop_last());
        if s.last() == separator() {
            before.push(Seq::empty())
        } else {
            before.update(before.len() - 1, before.last().push(s.last()))
        }
    }
}

/// A text is a well-formed name when no piece between separators is empty
/// (so the empty text is not one).
pub open spec fn well_formed_text(s: Seq<char>) -> bool {
    forall|i: int| 0 <= i < split_text(s).len() ==> (#[trigger] split_text(s)[i]).len() > 0
}

pub proof fn lemma_split_nonempty(s: Seq<char>)
    ensures
        split_text(s).len() >= 1,
    decreases s.len(),
{
    if s.len() > 0 {
        lemma_split_nonempty(s.drop_last());
    }
}

/// No piece of a split holds the separator.
pub proof fn lemma_split_pieces_plain(s: Seq<char>)
    ensures
        forall|i: int|
            0 <= i < split_text(s).len() ==> !(#[trigger] split_text(s)[i]).contains(separator()),
    decreases s.len(),
{
    if s.len() > 0 {
        let t = s.drop_last();
        lemma_split_pieces_plain(t);
        lemma_split_nonempty(t);
        let before = split_text(t);
        if s.last() != separator() {
            let l = before.last();
            assert forall|i: int| 0 <= i < split_text(s).len() implies !(
            #[trigger] split_text(s)[i]).contains(separator()) by {
                if i == before.len() - 1 {
                    let p = l.push(s.last());
                    if p.contains(separator()) {
                        let j = choose|j: int| 0 <= j < p.len() && p[j] == separator();
                        assert(l[j] == separator());
                    }
                }
            }
        } else {
            assert forall|i: int| 0 <= i < split_text(s).len() implies !(
            #[trigger] split_text(s)[i]).contains(separator()) by {
                if i == before.len() {
                    assert(split_text(s)[i] =~= Seq::<char>::empty());
                }
            }
        }
    }
}

/// Appending text without a separator extends the last piece.
proof fn lemma_split_append_plain(t: Seq<char>, a: Seq<char>)
    requires
        !a.contains(separator()),
    ensures
        split_text(t + a) == split_text(t).update(
            split_text(t).len() - 1,
            split_text(t).last() + a,
        ),
    decreases a.len(),
{
    lemma_split_nonempty(t);
    let st = split_text(t);
    if a.len() == 0 {
        assert(t + a =~= t);
        assert(st.last() + a =~= st.last());
        assert(st.update(st.len() - 1, st.last()) =~= st);
    } else {
        let a0 = a.drop_last();
        assert(!a0.contains(separator())) by {
            if a0.contains(separator()) {
                let j = choose|j: int| 0 <= j < a0.len() && a0[j] == separator();
                assert(a[j] == separator());
            }
        }
        lemma_split_append_plain(t, a0);
        assert((t + a).drop_last() =~= t + a0);
        assert((t + a).last() == a.last());
        assert(a.last() != separator()) by {
            assert(a[a.len() - 1] == a.last());
        }
        assert((st.last() + a0).push(a.last()) =~= st.last() + a);
        assert(split_text(t + a) =~= st.update(st.len() - 1, st.last() + a));
    }
}

/// Rendering a valid name and splitting the text gives the name back.
pub proof fn lemma_split_join(segs: Seq<Seq<char>>)
    requires
        valid_segments(segs),
    ensures
        split_text(join_segments(segs)) == segs,
    decreases segs.len(),
{
    if segs.len() == 1 {
        let s = segs[0];
        assert(valid_segment(segs[0]));
        lemma_split_append_plain(Seq::empty(), s);
        assert(Seq::<char>::empty() + s =~= s);
        assert(split_text(Seq::<char>::empty()) =~= seq![Seq::<char>::empty()]);
        assert(split_text(s) =~= segs);
    } else {
        let init = segs.drop_last();
        assert forall|i: int| 0 <= i < init.len() implies valid_segment(#[trigger] init[i]) by {
            assert(valid_segment(segs[i]));
        }
        lemma_split_join(init);
        let t = join_segments(init) + seq![separator()];
        assert(t.drop_last() =~= join_segments(init));
        assert(split_text(t) == init.push(Seq::empty()));
        assert(valid_segment(segs[segs.len() - 1]));
        lemma_split_append_plain(t, segs.last());
        assert(Seq::<char>::empty() + segs.last() =~= segs.last());
        assert(init.push(Seq::empty()).update(init.len() as int, segs.last()) =~= segs);
    }
}

/// Round trip: the text of a valid name is well-formed and parses back to
/// that name, and every well-formed text parses to a valid name whose text it
/// is. Hence two valid names with the same text are equal.
pub proof fn lemma_round_trip(segs: Seq<Seq<char>>, s: Seq<char>)
    requires
        valid_segments(segs),
    ensures
        well_formed_text(join_segments(segs)),
        split_text(join_segments(segs)) == segs,
        well_formed_text(s) ==> valid_segments(split_text(s)),
        well_formed_text(s) ==> join_segments(split_text(s)) == s,
{
    lemma_split_join(segs);
    assert forall|i: int| 0 <= i < segs.len() implies (#[trigger] segs[i]).len() > 0 by {
        assert(valid_segment(segs[i]));
    }
    lemma_split_nonempty(s);
    lemma_split_pieces_plain(s);
    lemma_join_split(s);
}

/// Joining the pieces of any text gives the text back.
pub proof fn lemma_join_split(s: Seq<char>)
    ensures
        join_segments(split_text(s)) == s,
    decreases s.len(),
{
    if s.len() == 0 {
        assert(join_segments(seq![Seq::<char>::empty()]) == Seq::<char>::empty());
    } else {
        let t = s.drop_last();
        lemma_join_split(t);
        lemma_split_nonempty(t);
        let before = split_text(t);
        if s.last() == separator() {
            let now = before.push(Seq::empty());
            assert(now.drop_last() =~= before);
            assert(join_segments(now) =~= t + seq![separator()] + Seq::<char>::empty());
            assert(s =~= t + seq![separator()]);
        } else {
            let now = before.update(before.len() - 1, before.last().push(s.last()));
            assert(now.drop_last() =~= before.drop_last());
            if before.len() == 1 {
                assert(before.last() =~= t);
                assert(s =~= t.push(s.last()));
            } else {
                assert(join_segments(before) == join_segments(before.drop_last()) + seq![
                    separator(),
                ] + before.last());
                assert(s =~= t.push(s.last()));
                assert(join_segments(now) =~= join_segments(before.drop_last()) + seq![
                    separator(),
                ] + before.last().push(s.last()));
            }
        }
    }
}

/// A hierarchical name: a namespace path, whose last segment may name a
/// table in the namespace formed by the others.
pub struct QualifiedName {
    segments: Vec<String>,
}

impl View for QualifiedName {
    type V = Seq<Seq<char>>;

    closed spec fn view(&self) -> Seq<Seq<char>> {
        self.segments@.map_values(|s: String| s@)
    }
}

impl QualifiedName {
    /// Well-formedness: every value built by this module satisfies it.
    pub open spec fn wf(&self) -> bool {
        valid_segments(self@)
    }

    /// Parses a dotted text; fails with `MalformedName` exactly when the
    /// text is empty or has an empty segment.
    pub fn parse(s: &str) -> (r: Result<QualifiedName, CatalogError>)
        ensures
            match r {
                Ok(n) => well_formed_text(s@) && n.wf() && n@ == split_text(s@),
                Err(e) => !well_formed_text(s@) && e == CatalogError::MalformedName,
            },
    {
        let n = s.unicode_len();
        let mut segments: Vec<String> = Vec::new();
        let mut start: usize = 0;
        let mut i: usize = 0;
        assert(s@.take(0) =~= Seq::<char>::empty());
        assert(s@.subrange(0, 0) =~= Seq::<char>::empty());
        assert(segments@.map_values(|x: String| x@) =~= Seq::<Seq<char>>::empty());
        assert(split_text(Seq::<char>::empty()) =~= seq![Seq::<char>::empty()]);
        while i < n
            invariant
                n == s@.len(),
                start <= i <= n,
                split_text(s@.take(i as int)) == segments@.map_values(|x: String| x@).push(
                    s@.subrange(start as int, i as int),
                ),
            decreases n - i,
        {
            let c = s.get_char(i);
            let ghost prev = s@.take(i as int);
            assert(s@.take(i + 1).drop_last() =~= prev);
            assert(s@.take(i + 1).last() == c);
            if c == '.' {
                let piece = s.substring_char(start, i);
                let ghost old_segments = segments@;
                segments.push(String::from_str(piece));
                assert(segments@.map_values(|x: String| x@) =~= old_segments.map_values(
                    |x: String| x@,
                ).push(s@.subrange(start as int, i as int)));
                start = i + 1;
                assert(s@.subrange(start as int, start as int) =~= Seq::<char>::empty());
            } else {
                assert(s@.subrange(start as int, i as int).push(c) =~= s@.subrange(
                    start as int,
                    i + 1,
                ));
                assert(segments@.map_values(|x: String| x@).push(
                    s@.subrange(start as int, i as int),
                ).len() == segments@.len() + 1);
                assert(split_text(s@.take(i + 1)) =~= segments@.map_values(|x: String| x@).push(
                    s@.subrange(start as int, i + 1),
                ));
            }
            i = i + 1;
        }
        let last = s.substring_char(start, n);
        segments.push(String::from_str(last));
        assert(s@.take(n as int) =~= s@);
        let ghost pieces = split_text(s@);
        assert(segments@.map_values(|x: String| x@) =~= pieces);
        let mut k: usize = 0;
        while k < segments.len()
            invariant
                segments@.map_values(|x: String| x@) == pieces,
                pieces == split_text(s@),
                k <= segments@.len(),
                forall|j: int| 0 <= j < k ==> (#[trigger] pieces[j]).len() > 0,
            decreases segments@.len() - k,
        {
            assert(pieces[k as int] == segments@[k as int]@);
            if segments[k].as_str().unicode_len() == 0 {
                assert(pieces[k as int].len() == 0);
                return Err(CatalogError::MalformedName);
            }
            k = k + 1;
        }
        let r = QualifiedName { segments };
        proof {
            lemma_split_nonempty(s@);
            lemma_split_pieces_plain(s@);
        }
        assert(r@ == pieces);
        Ok(r)
    }

    /// The segments of the name, outermost first.
    pub fn segments(&self) -> (r: &Vec<String>)
        ensures
            r@.map_values(|x: String| x@) == self@,
    {
        &self.segments
    }

    /// The last segment: the table's own name when the name denotes a table.
    pub fn name(&self) -> (r: String)
        requires
            self.wf(),
        ensures
            r@ == self@.last(),
    {
        let i = self.segments.len() - 1;
        assert(self@[i as int] == self.segments@[i as int]@);
        self.segments[i].clone()
    }

    /// The namespace that holds this name: all segments but the last. A name
    /// of one segment has none.
    pub fn parent_namespace(&self) -> (r: Option<QualifiedName>)
        requires
            self.wf(),
        ensures
            match r {
                Some(p) => self@.len() >= 2 && p.wf() && p@ == self@.drop_last(),
                None => self@.len() == 1,
            },
    {
        let n = self.segments.len();
        if n < 2 {
            return None;
        }
        let mut segments: Vec<String> = Vec::new();
        let mut i: usize = 0;
        while i < n - 1
            invariant
                n == self.segments@.len(),
                i <= n - 1,
                segments@.map_values(|x: String| x@) == self@.take(i as int),
            decreases n - 1 - i,
        {
            let seg = self.segments[i].clone();
            assert(seg@ == self@[i as int]);
            let ghost before = segments@;
            segments.push(seg);
            assert(before.map_values(|x: String| x@) == self@.take(i as int));
            assert(segments@ == before.push(seg));
            assert(segments@.map_values(|x: String| x@) =~= before.map_values(|x: String| x@).push(
                seg@,
            ));
            assert(self@.take(i + 1) =~= self@.take(i as int).push(self@[i as int]));
            i = i + 1;
        }
        let p = QualifiedName { segments };
        assert(p@ =~= self@.drop_last());
        assert forall|j: int| 0 <= j < p@.len() implies valid_segment(#[trigger] p@[j]) by {
            assert(p@[j] == self@[j]);
        }
        Some(p)
    }

    /// The name of `leaf` inside this namespace; fails with `MalformedName`
    /// exactly when `leaf` is empty or holds a separator.
    pub fn child(&self, leaf: &str) -> (r: Result<QualifiedName, CatalogError>)
        requires
            self.wf(),
        ensures
            match r {
                Ok(n) => valid_segment(leaf@) && n.wf() && n@ == self@.push(leaf@),
                Err(e) => !valid_segment(leaf@) && e == CatalogError::MalformedName,
            },
    {
        let n = leaf.unicode_len();
        if n == 0 {
            return Err(CatalogError::MalformedName);
        }
        let mut i: usize = 0;
        while i < n
            invariant
                n == leaf@.len(),
                i <= n,
                forall|j: int| 0 <= j < i ==> leaf@[j] != separator(),
            decreases n - i,
        {
            if leaf.get_char(i) == '.' {
                return Err(CatalogError::MalformedName);
            }
            i = i + 1;
        }
        let mut segments = self.segments.clone();
        let ghost before = segments@;
        assert(before.map_values(|x: String| x@) =~= self@) by {
            assert forall|j: int| 0 <= j < before.len() implies before[j]@ == self.segments@[j]@ by {
                assert(cloned::<String>(self.segments@[j], before[j]));
            }
        }
        segments.push(String::from_str(leaf));
        let r = QualifiedName { segments };
        assert(r@ =~= self@.push(leaf@));
        assert forall|j: int| 0 <= j < r@.len() implies valid_segment(#[trigger] r@[j]) by {
            if j < self@.len() {
                assert(r@[j] == self@[j]);
            }
        }
        Ok(r)
    }

    /// The canonical text of the name.
    pub fn render(&self) -> (r: String)
        requires
            self.wf(),
        ensures
            r@ == join_segments(self@),
    {
        let mut r = self.segments[0].clone();
        let mut i: usize = 1;
        let ghost segs = self@;
        while i < self.segments.len()
            invariant
                segs == self@,
                self.wf(),
                1 <= i <= self.segments@.len(),
                r@ == join_segments(segs.take(i as int)),
            decreases self.segments@.len() - i,
        {
            assert(segs[i as int] == self.segments@[i as int]@);
            let ghost before = r@;
            r.append(".");
            proof {
                reveal_strlit(".");
            }
            r.append(self.segments[i].as_str());
            assert(segs.take(i + 1).drop_last() =~= segs.take(i as int));
            assert(r@ =~= before + seq![separator()] + segs[i as int]);
            i = i + 1;
        }
        assert(segs.take(1) =~= seq![segs[0]]);
        assert(segs.take(i as int) =~= segs);
        r
    }
}

} // verus!
