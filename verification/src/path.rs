//! Where a value lives in a store: a sequence of levels.
//!
//! A path is its levels, not the string that spells them. `ui.theme` is two
//! levels, `ui` and `theme`; the dotted spelling is how a flat engine stores
//! the key whole and how a person reads it.
use vstd::prelude::*;

verus! {

/// The separator between levels when a path is spelled out whole.
pub const SEPARATOR: char = '.';

/// Whether `a` sorts strictly before `b`, character by character.
pub open spec fn seq_lt(a: Seq<char>, b: Seq<char>) -> bool
    decreases a.len(),
{
    if b.len() == 0 {
        false
    } else if a.len() == 0 {
        true
    } else if a[0] != b[0] {
        a[0] < b[0]
    } else {
        seq_lt(a.drop_first(), b.drop_first())
    }
}

/// Whether path `a` sorts strictly before path `b`, level by level.
///
/// A path sorts right before everything under it, and everything under it
/// sorts before any sibling that sorts after it: a subtree is one contiguous
/// run.
pub open spec fn path_lt(a: Seq<Seq<char>>, b: Seq<Seq<char>>) -> bool
    decreases a.len(),
{
    if b.len() == 0 {
        false
    } else if a.len() == 0 {
        true
    } else if a[0] != b[0] {
        seq_lt(a[0], b[0])
    } else {
        path_lt(a.drop_first(), b.drop_first())
    }
}

/// Whether `a` is `b` or one of its ancestors.
pub open spec fn is_prefix(a: Seq<Seq<char>>, b: Seq<Seq<char>>) -> bool {
    a.len() <= b.len() && b.subrange(0, a.len() as int) == a
}

/// Whether one of the two places holds the other.
pub open spec fn overlaps(a: Seq<Seq<char>>, b: Seq<Seq<char>>) -> bool {
    is_prefix(a, b) || is_prefix(b, a)
}

/// The levels spelled out whole, separated by [`SEPARATOR`].
pub open spec fn joined(s: Seq<Seq<char>>) -> Seq<char>
    decreases s.len(),
{
    if s.len() == 0 {
        Seq::empty()
    } else if s.len() == 1 {
        s[0]
    } else {
        joined(s.drop_last()) + seq![SEPARATOR] + s.last()
    }
}

/// The views of a list of strings.
pub open spec fn strings_view(v: Seq<String>) -> Seq<Seq<char>> {
    Seq::new(v.len(), |i: int| v[i]@)
}

/// The views of a list of paths.
pub open spec fn paths_view(v: Seq<StorePath>) -> Seq<Seq<Seq<char>>> {
    Seq::new(v.len(), |i: int| v[i]@)
}

/// Whether no level is empty or holds the separator, which is what makes a
/// joined spelling split back into the same levels.
pub open spec fn well_formed_levels(s: Seq<Seq<char>>) -> bool {
    forall|i: int|
        0 <= i < s.len() ==> s[i].len() > 0 && !(#[trigger] s[i]).contains(SEPARATOR)
}

/// Splits `s` at every separator, keeping empty pieces.
pub open spec fn split_levels(s: Seq<char>) -> Seq<Seq<char>>
    decreases s.len(),
{
    if s.len() == 0 {
        seq![Seq::empty()]
    } else {
        let rest = split_levels(s.drop_last());
        if s.last() == SEPARATOR {
            rest.push(Seq::empty())
        } else {
            rest.update(rest.len() - 1, rest.last().push(s.last()))
        }
    }
}

pub proof fn lemma_split_levels_nonempty(s: Seq<char>)
    ensures
        split_levels(s).len() >= 1,
    decreases s.len(),
{
    if s.len() > 0 {
        lemma_split_levels_nonempty(s.drop_last());
    }
}

pub proof fn lemma_seq_lt_irreflexive(a: Seq<char>)
    ensures
        !seq_lt(a, a),
    decreases a.len(),
{
    if a.len() > 0 {
        lemma_seq_lt_irreflexive(a.drop_first());
    }
}

pub proof fn lemma_seq_lt_total(a: Seq<char>, b: Seq<char>)
    ensures
        a != b ==> seq_lt(a, b) || seq_lt(b, a),
        !(seq_lt(a, b) && seq_lt(b, a)),
    decreases a.len(),
{
    if a.len() > 0 && b.len() > 0 {
        if a[0] == b[0] {
            lemma_seq_lt_total(a.drop_first(), b.drop_first());
            if a != b {
                assert(a =~= seq![a[0]] + a.drop_first());
                assert(b =~= seq![b[0]] + b.drop_first());
            }
        }
    } else if a.len() == 0 && b.len() == 0 {
        assert(a =~= b);
    }
}

pub proof fn lemma_seq_lt_transitive(a: Seq<char>, b: Seq<char>, c: Seq<char>)
    requires
        seq_lt(a, b),
        seq_lt(b, c),
    ensures
        seq_lt(a, c),
    decreases a.len(),
{
    if a.len() > 0 && b.len() > 0 && c.len() > 0 {
        if a[0] == b[0] && b[0] == c[0] {
            lemma_seq_lt_transitive(a.drop_first(), b.drop_first(), c.drop_first());
        }
    }
}

pub proof fn lemma_path_lt_irreflexive(a: Seq<Seq<char>>)
    ensures
        !path_lt(a, a),
    decreases a.len(),
{
    if a.len() > 0 {
        lemma_path_lt_irreflexive(a.drop_first());
    }
}

pub proof fn lemma_path_lt_total(a: Seq<Seq<char>>, b: Seq<Seq<char>>)
    ensures
        a != b ==> path_lt(a, b) || path_lt(b, a),
        !(path_lt(a, b) && path_lt(b, a)),
    decreases a.len(),
{
    if a.len() > 0 && b.len() > 0 {
        lemma_seq_lt_total(a[0], b[0]);
        if a[0] == b[0] {
            lemma_path_lt_total(a.drop_first(), b.drop_first());
            if a != b {
                assert(a =~= seq![a[0]] + a.drop_first());
                assert(b =~= seq![b[0]] + b.drop_first());
            }
        }
    } else if a.len() == 0 && b.len() == 0 {
        assert(a =~= b);
    }
}

pub proof fn lemma_path_lt_transitive(a: Seq<Seq<char>>, b: Seq<Seq<char>>, c: Seq<Seq<char>>)
    requires
        path_lt(a, b),
        path_lt(b, c),
    ensures
        path_lt(a, c),
    decreases a.len(),
{
    if a.len() > 0 && b.len() > 0 && c.len() > 0 {
        if a[0] == b[0] && b[0] == c[0] {
            lemma_path_lt_transitive(a.drop_first(), b.drop_first(), c.drop_first());
        } else if a[0] == b[0] {
        } else if b[0] == c[0] {
        } else {
            lemma_seq_lt_transitive(a[0], b[0], c[0]);
            lemma_seq_lt_total(a[0], c[0]);
            if a[0] == c[0] {
                lemma_seq_lt_total(a[0], b[0]);
            }
        }
    }
}

/// A place in a store, as the levels leading to it.
#[derive(Clone, Debug, PartialEq, Eq, Hash)]
pub struct StorePath {
    pub segments: Vec<String>,
}

impl View for StorePath {
    type V = Seq<Seq<char>>;

    open spec fn view(&self) -> Seq<Seq<char>> {
        strings_view(self.segments@)
    }
}

/// Why a spelled-out path could not be read as levels.
#[derive(Clone, Debug, PartialEq, Eq)]
pub enum StorePathError {
    /// Two separators in a row, or one at either end, which leaves a level
    /// with no name.
    EmptyLevel,
}

/// A copy of `v`, string for string.
pub fn copy_strings(v: &Vec<String>) -> (r: Vec<String>)
    ensures
        r@ == v@,
{
    let mut r: Vec<String> = Vec::new();
    let mut i: usize = 0;
    while i < v.len()
        invariant
            i <= v.len(),
            r@ == v@.subrange(0, i as int),
        decreases v.len() - i,
    {
        r.push(v[i].clone());
        i = i + 1;
    }
    assert(r@ =~= v@);
    r
}

/// Whether two strings hold the same characters.
pub fn str_eq(a: &str, b: &str) -> (r: bool)
    ensures
        r == (a@ == b@),
{
    let la = a.unicode_len();
    let lb = b.unicode_len();
    if la != lb {
        return false;
    }
    let mut i: usize = 0;
    while i < la
        invariant
            la == a@.len(),
            lb == b@.len(),
            la == lb,
            i <= la,
            a@.subrange(0, i as int) == b@.subrange(0, i as int),
        decreases la - i,
    {
        if a.get_char(i) != b.get_char(i) {
            return false;
        }
        assert(a@.subrange(0, i + 1) =~= a@.subrange(0, i as int).push(a@[i as int]));
        assert(b@.subrange(0, i + 1) =~= b@.subrange(0, i as int).push(b@[i as int]));
        i = i + 1;
    }
    assert(a@ =~= a@.subrange(0, la as int));
    assert(b@ =~= b@.subrange(0, lb as int));
    true
}

/// Whether `a` sorts strictly before `b`, character by character.
pub fn str_lt(a: &str, b: &str) -> (r: bool)
    ensures
        r == seq_lt(a@, b@),
{
    let la = a.unicode_len();
    let lb = b.unicode_len();
    let mut i: usize = 0;
    proof {
        assert(a@.skip(0) =~= a@);
        assert(b@.skip(0) =~= b@);
    }
    while i < la && i < lb
        invariant
            la == a@.len(),
            lb == b@.len(),
            i <= la,
            i <= lb,
            seq_lt(a@, b@) == seq_lt(a@.skip(i as int), b@.skip(i as int)),
        decreases la - i,
    {
        let ca = a.get_char(i);
        let cb = b.get_char(i);
        if ca != cb {
            proof {
                assert(a@.skip(i as int)[0] == ca);
                assert(b@.skip(i as int)[0] == cb);
            }
            return ca < cb;
        }
        proof {
            assert(a@.skip(i as int).drop_first() =~= a@.skip(i + 1));
            assert(b@.skip(i as int).drop_first() =~= b@.skip(i + 1));
        }
        i = i + 1;
    }
    proof {
        assert(a@.skip(i as int).len() == 0 || b@.skip(i as int).len() == 0);
    }
    i < lb
}

/// Whether `s` holds the separator anywhere.
pub fn has_separator(s: &str) -> (r: bool)
    ensures
        r == s@.contains(SEPARATOR),
{
    let n = s.unicode_len();
    let mut i: usize = 0;
    while i < n
        invariant
            n == s@.len(),
            i <= n,
            forall|j: int| 0 <= j < i ==> s@[j] != SEPARATOR,
        decreases n - i,
    {
        if s.get_char(i) == SEPARATOR {
            return true;
        }
        i = i + 1;
    }
    false
}

impl StorePath {
    /// The root: no levels at all, and everything is under it.
    pub fn root() -> (r: StorePath)
        ensures
            r@ == Seq::<Seq<char>>::empty(),
    {
        let r = StorePath { segments: Vec::new() };
        assert(r@ =~= Seq::<Seq<char>>::empty());
        r
    }

    /// A path of one level.
    pub fn segment(name: &str) -> (r: StorePath)
        ensures
            r@ == seq![name@],
    {
        let mut segments: Vec<String> = Vec::new();
        segments.push(name.to_owned());
        let r = StorePath { segments };
        assert(r@ =~= seq![name@]);
        r
    }

    /// A path of these levels, in order.
    pub fn from_segments(segments: Vec<String>) -> (r: StorePath)
        ensures
            r@ == strings_view(segments@),
    {
        StorePath { segments }
    }

    /// The levels, in order.
    pub fn levels(&self) -> (r: &Vec<String>)
        ensures
            strings_view(r@) == self@,
    {
        &self.segments
    }

    /// A copy of this path.
    pub fn copy(&self) -> (r: StorePath)
        ensures
            r@ == self@,
    {
        StorePath { segments: copy_strings(&self.segments) }
    }

    /// How many levels the path has.
    pub fn segment_count(&self) -> (r: usize)
        ensures
            r == self@.len(),
    {
        self.segments.len()
    }

    /// Whether this is the root.
    pub fn is_root(&self) -> (r: bool)
        ensures
            r == (self@.len() == 0),
    {
        self.segments.len() == 0
    }

    /// This path with `other`'s levels after it.
    pub fn join(&self, other: &StorePath) -> (r: StorePath)
        ensures
            r@ == self@ + other@,
    {
        let mut segments = copy_strings(&self.segments);
        let mut i: usize = 0;
        while i < other.segments.len()
            invariant
                i <= other.segments@.len(),
                strings_view(segments@) == self@ + other@.subrange(0, i as int),
            decreases other.segments@.len() - i,
        {
            let ghost before = segments@;
            let piece = other.segments[i].clone();
            segments.push(piece);
            proof {
                assert(segments@ == before.push(piece));
                assert(strings_view(segments@) =~= strings_view(before).push(other@[i as int]));
                assert(other@.subrange(0, i + 1) =~= other@.subrange(0, i as int).push(other@[i as int]));
                assert(strings_view(segments@) =~= self@ + other@.subrange(0, i + 1));
            }
            i = i + 1;
        }
        proof {
            assert(other@.subrange(0, other@.len() as int) =~= other@);
        }
        StorePath { segments }
    }

    /// This path with one more level after it.
    pub fn push(&self, name: &str) -> (r: StorePath)
        ensures
            r@ == self@.push(name@),
    {
        let mut segments = copy_strings(&self.segments);
        segments.push(name.to_owned());
        let r = StorePath { segments };
        assert(r@ =~= self@.push(name@));
        r
    }

    /// The level above, or `None` at the root.
    pub fn parent(&self) -> (r: Option<StorePath>)
        ensures
            self@.len() == 0 ==> r.is_none(),
            self@.len() > 0 ==> r.is_some() && r.unwrap()@ == self@.drop_last(),
    {
        if self.segments.len() == 0 {
            return None;
        }
        let mut segments = copy_strings(&self.segments);
        segments.pop();
        let r = StorePath { segments };
        assert(r@ =~= self@.drop_last());
        Some(r)
    }

    /// Whether both name the same place.
    pub fn same(&self, other: &StorePath) -> (r: bool)
        ensures
            r == (self@ == other@),
    {
        if self.segments.len() != other.segments.len() {
            assert(self@.len() != other@.len());
            return false;
        }
        let mut i: usize = 0;
        while i < self.segments.len()
            invariant
                i <= self.segments@.len(),
                self.segments@.len() == other.segments@.len(),
                forall|j: int| 0 <= j < i ==> self@[j] == other@[j],
            decreases self.segments@.len() - i,
        {
            if !str_eq(self.segments[i].as_str(), other.segments[i].as_str()) {
                assert(self@[i as int] != other@[i as int]);
                return false;
            }
            i = i + 1;
        }
        assert(self@ =~= other@);
        true
    }

    /// Whether this path is `other` or holds it.
    pub fn holds(&self, other: &StorePath) -> (r: bool)
        ensures
            r == is_prefix(self@, other@),
    {
        if self.segments.len() > other.segments.len() {
            return false;
        }
        let mut i: usize = 0;
        while i < self.segments.len()
            invariant
                i <= self.segments@.len(),
                self.segments@.len() <= other.segments@.len(),
                forall|j: int| 0 <= j < i ==> self@[j] == other@[j],
            decreases self.segments@.len() - i,
        {
            if !str_eq(self.segments[i].as_str(), other.segments[i].as_str()) {
                assert(other@.subrange(0, self@.len() as int)[i as int] != self@[i as int]);
                return false;
            }
            i = i + 1;
        }
        assert(other@.subrange(0, self@.len() as int) =~= self@);
        true
    }

    /// Whether one of the two holds the other - which is when two claims on
    /// them meet.
    pub fn overlaps(&self, other: &StorePath) -> (r: bool)
        ensures
            r == overlaps(self@, other@),
    {
        self.holds(other) || other.holds(self)
    }

    /// Whether this path sorts strictly before `other`.
    pub fn sorts_before(&self, other: &StorePath) -> (r: bool)
        ensures
            r == path_lt(self@, other@),
    {
        let la = self.segments.len();
        let lb = other.segments.len();
        let mut i: usize = 0;
        proof {
            assert(self@.skip(0) =~= self@);
            assert(other@.skip(0) =~= other@);
        }
        while i < la && i < lb
            invariant
                la == self@.len(),
                lb == other@.len(),
                i <= la,
                i <= lb,
                path_lt(self@, other@) == path_lt(self@.skip(i as int), other@.skip(i as int)),
            decreases la - i,
        {
            let a = self.segments[i].as_str();
            let b = other.segments[i].as_str();
            if !str_eq(a, b) {
                proof {
                    assert(self@.skip(i as int)[0] == a@);
                    assert(other@.skip(i as int)[0] == b@);
                }
                return str_lt(a, b);
            }
            proof {
                assert(self@.skip(i as int).drop_first() =~= self@.skip(i + 1));
                assert(other@.skip(i as int).drop_first() =~= other@.skip(i + 1));
            }
            i = i + 1;
        }
        proof {
            assert(self@.skip(i as int).len() == 0 || other@.skip(i as int).len() == 0);
        }
        i < lb
    }

    /// The levels spelled out whole, separated by dots.
    pub fn as_string(&self) -> (r: String)
        ensures
            r@ == joined(self@),
    {
        let mut out = String::new();
        let mut i: usize = 0;
        while i < self.segments.len()
            invariant
                i <= self.segments@.len(),
                out@ == joined(self@.subrange(0, i as int)),
            decreases self.segments@.len() - i,
        {
            if i > 0 {
                out.append(".");
                proof {
                    reveal_strlit(".");
                }
            }
            out.append(self.segments[i].as_str());
            proof {
                let s = self@.subrange(0, i + 1);
                assert(s.drop_last() =~= self@.subrange(0, i as int));
                if i == 0 {
                    assert(out@ =~= s[0]);
                } else {
                    assert(out@ =~= joined(s.drop_last()) + seq![SEPARATOR] + s.last());
                }
            }
            i = i + 1;
        }
        assert(self@.subrange(0, self@.len() as int) =~= self@);
        out
    }

    /// Reads a dotted spelling back into levels. The empty string is the
    /// root; a level with no name is refused.
    pub fn parse_joined(s: &str) -> (r: Result<StorePath, StorePathError>)
        ensures
            s@.len() == 0 ==> r is Ok && r.unwrap()@.len() == 0,
            s@.len() > 0 ==> match r {
                Ok(p) => p@ == split_levels(s@) && well_formed_levels(p@),
                Err(_) => exists|i: int|
                    0 <= i < split_levels(s@).len() && (#[trigger] split_levels(s@)[i]).len()
                        == 0,
            },
    {
        let n = s.unicode_len();
        if n == 0 {
            return Ok(StorePath::root());
        }
        let mut done: Vec<String> = Vec::new();
        let mut current = String::new();
        let mut i: usize = 0;
        proof {
            assert(s@.subrange(0, 0) =~= Seq::<char>::empty());
        }
        while i < n
            invariant
                n == s@.len(),
                i <= n,
                strings_view(done@).push(current@) == split_levels(s@.subrange(0, i as int)),
            decreases n - i,
        {
            let c = s.get_char(i);
            proof {
                assert(s@.subrange(0, i + 1).drop_last() =~= s@.subrange(0, i as int));
                lemma_split_levels_nonempty(s@.subrange(0, i as int));
            }
            if c == SEPARATOR {
                let mut piece = String::new();
                std::mem::swap(&mut piece, &mut current);
                done.push(piece);
                proof {
                    assert(strings_view(done@).push(current@) =~= split_levels(
                        s@.subrange(0, i as int),
                    ).push(Seq::empty()));
                }
            } else {
                let mut one = String::new();
                one.append(s.substring_char(i, i + 1));
                let ghost before = current@;
                current.append(one.as_str());
                proof {
                    assert(current@ =~= before.push(c));
                    let prev = split_levels(s@.subrange(0, i as int));
                    assert(strings_view(done@).push(current@) =~= prev.update(
                        prev.len() - 1,
                        prev.last().push(c),
                    ));
                }
            }
            i = i + 1;
        }
        done.push(current);
        proof {
            assert(s@.subrange(0, n as int) =~= s@);
            assert(strings_view(done@) =~= split_levels(s@));
        }
        let mut k: usize = 0;
        while k < done.len()
            invariant
                n == s@.len(),
                n > 0,
                k <= done@.len(),
                strings_view(done@) == split_levels(s@),
                forall|j: int| 0 <= j < k ==> (#[trigger] done@[j])@.len() > 0,
            decreases done@.len() - k,
        {
            if done[k].as_str().unicode_len() == 0 {
                assert(split_levels(s@)[k as int].len() == 0);
                return Err(StorePathError::EmptyLevel);
            }
            k = k + 1;
        }
        let r = StorePath { segments: done };
        proof {
            assert forall|j: int| 0 <= j < r@.len() implies r@[j].len() > 0 && !(
            #[trigger] r@[j]).contains(SEPARATOR) by {
                lemma_split_levels_no_separator(s@, j);
            }
        }
        Ok(r)
    }
}

/// No piece of a split holds the separator it was split on.
pub proof fn lemma_split_levels_no_separator(s: Seq<char>, j: int)
    requires
        0 <= j < split_levels(s).len(),
    ensures
        !split_levels(s)[j].contains(SEPARATOR),
    decreases s.len(),
{
    if s.len() > 0 {
        let rest = split_levels(s.drop_last());
        lemma_split_levels_nonempty(s.drop_last());
        if s.last() == SEPARATOR {
            if j < rest.len() {
                lemma_split_levels_no_separator(s.drop_last(), j);
            }
        } else {
            if j < rest.len() - 1 {
                lemma_split_levels_no_separator(s.drop_last(), j);
            } else {
                lemma_split_levels_no_separator(s.drop_last(), j);
                let piece = rest.last().push(s.last());
                assert forall|k: int| 0 <= k < piece.len() implies piece[k] != SEPARATOR by {
                    if k < rest.last().len() {
                        assert(piece[k] == rest.last()[k]);
                    }
                }
            }
        }
    }
}


/// Joining the pieces a split made gives the string back.
pub proof fn lemma_joined_split(s: Seq<char>)
    ensures
        joined(split_levels(s)) == s,
    decreases s.len(),
{
    if s.len() > 0 {
        let rest = split_levels(s.drop_last());
        lemma_split_levels_nonempty(s.drop_last());
        lemma_joined_split(s.drop_last());
        if s.last() == SEPARATOR {
            let r = rest.push(Seq::<char>::empty());
            assert(r.drop_last() =~= rest);
            assert(joined(r) =~= s);
        } else {
            let r = rest.update(rest.len() - 1, rest.last().push(s.last()));
            if rest.len() == 1 {
                assert(joined(r) =~= s);
            } else {
                assert(r.drop_last() =~= rest.drop_last());
                assert(r.last() == rest.last().push(s.last()));
                assert(joined(r) == joined(rest.drop_last()) + seq![SEPARATOR] + r.last());
                assert(joined(rest) == joined(rest.drop_last()) + seq![SEPARATOR] + rest.last());
                assert(joined(r) =~= joined(rest).push(s.last()));
                assert(s =~= s.drop_last().push(s.last()));
            }
        }
    } else {
        assert(split_levels(s) =~= seq![Seq::<char>::empty()]);
        assert(joined(split_levels(s)) =~= s);
    }
}

} // verus!
