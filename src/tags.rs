//! Tag sets: ordered, duplicate-free sequences of labels such as parts of speech.
use vstd::prelude::*;

verus! {

/// The character values of a sequence of strings.
pub open spec fn texts(v: Seq<String>) -> Seq<Seq<char>> {
    v.map_values(|s: String| s@)
}

/// No label occurs twice.
pub open spec fn no_duplicates(s: Seq<Seq<char>>) -> bool {
    forall|i: int, j: int| 0 <= i < j < s.len() ==> s[i] != s[j]
}

/// Appends `t` unless it is already present.
pub open spec fn push_unique(acc: Seq<Seq<char>>, t: Seq<char>) -> Seq<Seq<char>> {
    if acc.contains(t) {
        acc
    } else {
        acc.push(t)
    }
}

/// `a` followed by each label of `b` not seen before, in order of first appearance.
pub open spec fn union_tags(a: Seq<Seq<char>>, b: Seq<Seq<char>>) -> Seq<Seq<char>>
    decreases b.len(),
{
    if b.len() == 0 {
        a
    } else {
        push_unique(union_tags(a, b.drop_last()), b.last())
    }
}

/// Whether `t` is one of the labels of `v`.
pub fn contains_tag(v: &Vec<String>, t: &String) -> (r: bool)
    ensures
        r == texts(v@).contains(t@),
{
    let mut i: usize = 0;
    while i < v.len()
        invariant
            i <= v.len(),
            forall|k: int| 0 <= k < i ==> v@[k]@ != t@,
        decreases v.len() - i,
    {
        if v[i] == *t {
            assert(texts(v@)[i as int] == t@);
            return true;
        }
        i += 1;
    }
    proof {
        if texts(v@).contains(t@) {
            let k = choose|k: int| 0 <= k < texts(v@).len() && texts(v@)[k] == t@;
            assert(v@[k]@ == t@);
        }
    }
    false
}

/// Adds to `acc` each label of `more` that it does not hold yet, keeping the order of first
/// appearance.
pub fn union_into(acc: &mut Vec<String>, more: &Vec<String>)
    ensures
        texts(final(acc)@) == union_tags(texts(old(acc)@), texts(more@)),
{
    let ghost start = texts(acc@);
    let mut i: usize = 0;
    while i < more.len()
        invariant
            i <= more.len(),
            texts(acc@) == union_tags(start, texts(more@).subrange(0, i as int)),
        decreases more.len() - i,
    {
        let t = &more[i];
        let present = contains_tag(acc, t);
        proof {
            let pre = texts(more@).subrange(0, i as int + 1);
            assert(pre.drop_last() =~= texts(more@).subrange(0, i as int));
            assert(pre.last() == t@);
        }
        if !present {
            let ghost before = acc@;
            let c = t.clone();
            acc.push(c);
            assert(texts(acc@) =~= texts(before).push(t@));
        }
        i += 1;
    }
    assert(texts(more@).subrange(0, more.len() as int) =~= texts(more@));
}

/// The union of two tag sets: `a`, then the labels of `b` that `a` lacks.
pub fn merge_tags(a: &Vec<String>, b: &Vec<String>) -> (r: Vec<String>)
    ensures
        texts(r@) == union_tags(texts(a@), texts(b@)),
{
    let mut r = a.clone();
    union_into(&mut r, b);
    r
}

/// The union of two tag sets keeps `a` as its prefix, holds exactly the labels of `a` and `b`,
/// and has no duplicate when `a` has none.
pub proof fn lemma_union_tags(a: Seq<Seq<char>>, b: Seq<Seq<char>>)
    requires
        no_duplicates(a),
    ensures
        no_duplicates(union_tags(a, b)),
        union_tags(a, b).len() >= a.len(),
        union_tags(a, b).subrange(0, a.len() as int) == a,
        forall|t: Seq<char>| #[trigger]
            union_tags(a, b).contains(t) <==> (a.contains(t) || b.contains(t)),
    decreases b.len(),
{
    if b.len() == 0 {
        assert(a.subrange(0, a.len() as int) =~= a);
    } else {
        let prev = union_tags(a, b.drop_last());
        lemma_union_tags(a, b.drop_last());
        let u = union_tags(a, b);
        assert(u == push_unique(prev, b.last()));
        if !prev.contains(b.last()) {
            assert(u.subrange(0, a.len() as int) =~= prev.subrange(0, a.len() as int));
            assert forall|i: int, j: int| 0 <= i < j < u.len() implies u[i] != u[j] by {
                if j == u.len() - 1 {
                    assert(prev.contains(u[i]));
                }
            }
        }
        assert forall|t: Seq<char>| #[trigger] u.contains(t) <==> (a.contains(t) || b.contains(t)) by {
            if b.contains(t) && !b.drop_last().contains(t) {
                let k = choose|k: int| 0 <= k < b.len() && b[k] == t;
                if k < b.len() - 1 {
                    assert(b.drop_last()[k] == t);
                }
                assert(t == b.last());
                if prev.contains(t) {
                } else {
                    assert(u[u.len() - 1] == t);
                }
            }
            if b.drop_last().contains(t) {
                let k = choose|k: int| 0 <= k < b.drop_last().len() && b.drop_last()[k] == t;
                assert(b[k] == t);
            }
            if u.contains(t) && !prev.contains(t) {
                let k = choose|k: int| 0 <= k < u.len() && u[k] == t;
                if k < prev.len() {
                    assert(prev[k] == t);
                }
                assert(b[b.len() - 1] == t);
            }
            if prev.contains(t) {
                let k = choose|k: int| 0 <= k < prev.len() && prev[k] == t;
                assert(u[k] == t);
            }
        }
    }
}

/// Taking the union with `b + c` is taking it with `b`, then with `c`.
pub proof fn lemma_union_concat(a: Seq<Seq<char>>, b: Seq<Seq<char>>, c: Seq<Seq<char>>)
    ensures
        union_tags(a, b + c) == union_tags(union_tags(a, b), c),
    decreases c.len(),
{
    if c.len() == 0 {
        assert(b + c =~= b);
    } else {
        assert((b + c).drop_last() =~= b + c.drop_last());
        assert((b + c).last() == c.last());
        lemma_union_concat(a, b, c.drop_last());
    }
}

/// The labels of `s` joined into one text, with `sep` between each two.
pub open spec fn join_with(s: Seq<Seq<char>>, sep: char) -> Seq<char>
    decreases s.len(),
{
    if s.len() == 0 {
        Seq::empty()
    } else if s.len() == 1 {
        s[0]
    } else {
        join_with(s.drop_last(), sep).push(sep) + s.last()
    }
}

/// The pieces of `s` between occurrences of `sep`; an empty text gives one empty piece.
pub open spec fn split_on(s: Seq<char>, sep: char) -> Seq<Seq<char>>
    decreases s.len(),
{
    if s.len() == 0 {
        seq![Seq::empty()]
    } else {
        let rest = split_on(s.drop_last(), sep);
        if s.last() == sep {
            rest.push(Seq::empty())
        } else {
            rest.update(rest.len() - 1, rest.last().push(s.last()))
        }
    }
}

proof fn lemma_split_nonempty(s: Seq<char>, sep: char)
    ensures
        split_on(s, sep).len() >= 1,
    decreases s.len(),
{
    if s.len() > 0 {
        lemma_split_nonempty(s.drop_last(), sep);
    }
}

proof fn lemma_split_without_sep(s: Seq<char>, sep: char)
    requires
        !s.contains(sep),
    ensures
        split_on(s, sep) == seq![s],
    decreases s.len(),
{
    if s.len() == 0 {
        assert(s =~= Seq::<char>::empty());
    } else {
        assert(!s.drop_last().contains(sep)) by {
            if s.drop_last().contains(sep) {
                let k = choose|k: int| 0 <= k < s.drop_last().len() && s.drop_last()[k] == sep;
                assert(s[k] == sep);
            }
        }
        lemma_split_without_sep(s.drop_last(), sep);
        assert(s.last() != sep) by {
            assert(s[s.len() - 1] == s.last());
        }
        assert(s.drop_last().push(s.last()) =~= s);
        assert(split_on(s, sep) =~= seq![s]);
    }
}

proof fn lemma_split_after_sep(a: Seq<char>, b: Seq<char>, sep: char)
    requires
        !b.contains(sep),
    ensures
        split_on(a.push(sep) + b, sep) == split_on(a, sep).push(b),
    decreases b.len(),
{
    lemma_split_nonempty(a, sep);
    if b.len() == 0 {
        assert(a.push(sep) + b =~= a.push(sep));
        assert(a.push(sep).drop_last() =~= a);
        assert(b =~= Seq::<char>::empty());
    } else {
        let t = a.push(sep) + b;
        assert(t.drop_last() =~= a.push(sep) + b.drop_last());
        assert(t.last() == b.last());
        assert(!b.drop_last().contains(sep)) by {
            if b.drop_last().contains(sep) {
                let k = choose|k: int| 0 <= k < b.drop_last().len() && b.drop_last()[k] == sep;
                assert(b[k] == sep);
            }
        }
        assert(b.last() != sep) by {
            assert(b[b.len() - 1] == b.last());
        }
        lemma_split_after_sep(a, b.drop_last(), sep);
        assert(b.drop_last().push(b.last()) =~= b);
        assert(split_on(t, sep) =~= split_on(a, sep).push(b));
    }
}

/// Reading back a joined tag set gives its labels again, when there is at least one label
/// and no label holds the separator.
pub proof fn lemma_split_join(tags: Seq<Seq<char>>, sep: char)
    requires
        tags.len() > 0,
        forall|i: int| 0 <= i < tags.len() ==> !(#[trigger] tags[i]).contains(sep),
    ensures
        split_on(join_with(tags, sep), sep) == tags,
    decreases tags.len(),
{
    if tags.len() == 1 {
        lemma_split_without_sep(tags[0], sep);
        assert(tags =~= seq![tags[0]]);
    } else {
        let prefix = tags.drop_last();
        assert forall|i: int| 0 <= i < prefix.len() implies !(#[trigger] prefix[i]).contains(sep) by {
            assert(prefix[i] == tags[i]);
        }
        lemma_split_join(prefix, sep);
        assert(!tags.last().contains(sep)) by {
            assert(tags[tags.len() - 1] == tags.last());
        }
        lemma_split_after_sep(join_with(prefix, sep), tags.last(), sep);
        assert(prefix.push(tags.last()) =~= tags);
    }
}

/// The separator of stored tag sets: a full-width vertical bar.
pub open spec fn tag_separator() -> char {
    '｜'
}

/// Joins labels with `sep` (a one-character text) between each two.
pub fn join_labels(v: &Vec<String>, sep: &str) -> (r: String)
    requires
        sep@.len() == 1,
    ensures
        r@ == join_with(texts(v@), sep@[0]),
{
    let mut r = String::new();
    let mut i: usize = 0;
    while i < v.len()
        invariant
            i <= v.len(),
            sep@.len() == 1,
            r@ == join_with(texts(v@).subrange(0, i as int), sep@[0]),
        decreases v.len() - i,
    {
        let ghost pre = texts(v@).subrange(0, i as int + 1);
        assert(pre.drop_last() =~= texts(v@).subrange(0, i as int));
        if i > 0 {
            r.append(sep);
            assert(sep@ =~= seq![sep@[0]]);
        }
        r.append(v[i].as_str());
        if i == 0 {
            assert(r@ =~= pre[0]);
        } else {
            assert(r@ =~= join_with(pre.drop_last(), sep@[0]).push(sep@[0]) + pre.last());
        }
        i += 1;
    }
    assert(texts(v@).subrange(0, v.len() as int) =~= texts(v@));
    r
}

/// Joins a tag set into its stored form, with the full-width bar between labels.
pub fn join_tags(v: &Vec<String>) -> (r: String)
    ensures
        r@ == join_with(texts(v@), tag_separator()),
{
    let sep = "｜";
    proof {
        reveal_strlit("｜");
    }
    join_labels(v, sep)
}

/// Splits `s` at each occurrence of `sep`.
pub fn split_labels(s: &str, sep: char) -> (r: Vec<String>)
    ensures
        texts(r@) == split_on(s@, sep),
{
    let n = s.unicode_len();
    let mut pieces: Vec<String> = Vec::new();
    let mut start: usize = 0;
    let mut i: usize = 0;
    assert(s@.subrange(0, 0) =~= Seq::<char>::empty());
    assert(texts(pieces@).push(s@.subrange(0, 0)) =~= seq![Seq::<char>::empty()]);
    while i < n
        invariant
            n == s@.len(),
            start <= i <= n,
            texts(pieces@).push(s@.subrange(start as int, i as int)) == split_on(
                s@.subrange(0, i as int),
                sep,
            ),
        decreases n - i,
    {
        let c = s.get_char(i);
        let ghost pre = s@.subrange(0, i as int + 1);
        assert(pre.drop_last() =~= s@.subrange(0, i as int));
        assert(pre.last() == c);
        proof {
            lemma_split_nonempty(pre.drop_last(), sep);
        }
        if c == sep {
            let piece = String::from_str(s.substring_char(start, i));
            pieces.push(piece);
            assert(s@.subrange(i as int + 1, i as int + 1) =~= Seq::<char>::empty());
            assert(texts(pieces@) =~= texts(pieces@).drop_last().push(piece@));
            start = i + 1;
            assert(texts(pieces@).push(s@.subrange(start as int, i as int + 1)) =~= split_on(
                pre,
                sep,
            ));
        } else {
            assert(s@.subrange(start as int, i as int + 1) =~= s@.subrange(
                start as int,
                i as int,
            ).push(c));
            assert(texts(pieces@).push(s@.subrange(start as int, i as int + 1)) =~= split_on(
                pre,
                sep,
            ));
        }
        i += 1;
    }
    let last = String::from_str(s.substring_char(start, n));
    let ghost before = pieces@;
    pieces.push(last);
    assert(s@.subrange(0, n as int) =~= s@);
    assert(texts(pieces@) =~= texts(before).push(s@.subrange(start as int, n as int)));
    pieces
}

/// Reads a stored tag set back into its labels.
pub fn split_tags(s: &str) -> (r: Vec<String>)
    ensures
        texts(r@) == split_on(s@, tag_separator()),
{
    split_labels(s, '｜')
}

} // verus!
