//! Splitting a character sequence into the fields between separators.

use vstd::prelude::*;

verus! {

/// The fields of `s` between occurrences of `sep`, as `str::split` yields them:
/// `n` separators give `n + 1` fields, empty ones included.
pub open spec fn split_fields(s: Seq<char>, sep: char) -> Seq<Seq<char>>
    decreases s.len(),
{
    if s.len() == 0 {
        seq![Seq::<char>::empty()]
    } else {
        let rest = split_fields(s.drop_first(), sep);
        if s[0] == sep {
            seq![Seq::<char>::empty()] + rest
        } else {
            rest.update(0, seq![s[0]] + rest[0])
        }
    }
}

/// `s` holds no `sep`.
pub open spec fn free_of(s: Seq<char>, sep: char) -> bool {
    forall|i: int| 0 <= i < s.len() ==> #[trigger] s[i] != sep
}

/// There is always at least one field.
pub proof fn lemma_split_nonempty(s: Seq<char>, sep: char)
    ensures
        split_fields(s, sep).len() >= 1,
    decreases s.len(),
{
    if s.len() > 0 {
        lemma_split_nonempty(s.drop_first(), sep);
    }
}

/// A string free of the separator is a single field.
pub proof fn lemma_split_single(s: Seq<char>, sep: char)
    requires
        free_of(s, sep),
    ensures
        split_fields(s, sep) == seq![s],
    decreases s.len(),
{
    if s.len() > 0 {
        assert(free_of(s.drop_first(), sep)) by {
            assert forall|i: int| 0 <= i < s.drop_first().len() implies #[trigger] s.drop_first()[i]
                != sep by {
                assert(s.drop_first()[i] == s[i + 1]);
            }
        }
        lemma_split_single(s.drop_first(), sep);
        assert(seq![s[0]] + s.drop_first() =~= s);
        assert(split_fields(s, sep) =~= seq![s]);
    } else {
        assert(s =~= Seq::<char>::empty());
    }
}

/// A leading field followed by a separator splits off as the first field.
pub proof fn lemma_split_cons(f: Seq<char>, y: Seq<char>, sep: char)
    requires
        free_of(f, sep),
    ensures
        split_fields(f + seq![sep] + y, sep) == seq![f] + split_fields(y, sep),
    decreases f.len(),
{
    let x = f + seq![sep] + y;
    if f.len() == 0 {
        assert(x.drop_first() =~= y);
        assert(f =~= Seq::<char>::empty());
    } else {
        let f2 = f.drop_first();
        assert(free_of(f2, sep)) by {
            assert forall|i: int| 0 <= i < f2.len() implies #[trigger] f2[i] != sep by {
                assert(f2[i] == f[i + 1]);
            }
        }
        lemma_split_cons(f2, y, sep);
        assert(x.drop_first() =~= f2 + seq![sep] + y);
        assert(x[0] == f[0]);
        assert(seq![f[0]] + f2 =~= f);
        assert(split_fields(x, sep) =~= seq![f] + split_fields(y, sep));
    }
}

/// Walking `s[lo..hi]` from the left: the fields found so far, followed by the
/// fields of what is left from the start of the current field, are all the fields.
pub proof fn lemma_split_step(s: Seq<char>, lo: int, fs: int, i: int, hi: int, sep: char)
    requires
        0 <= lo <= fs <= i < hi <= s.len(),
        s[i] == sep,
        free_of(s.subrange(fs, i), sep),
    ensures
        split_fields(s.subrange(fs, hi), sep) == seq![s.subrange(fs, i)] + split_fields(
            s.subrange(i + 1, hi),
            sep,
        ),
{
    assert(s.subrange(fs, hi) =~= s.subrange(fs, i) + seq![sep] + s.subrange(i + 1, hi));
    lemma_split_cons(s.subrange(fs, i), s.subrange(i + 1, hi), sep);
}

/// Extending a separator-free stretch by one more non-separator character.
pub proof fn lemma_free_extend(s: Seq<char>, fs: int, i: int, sep: char)
    requires
        0 <= fs <= i < s.len(),
        free_of(s.subrange(fs, i), sep),
        s[i] != sep,
    ensures
        free_of(s.subrange(fs, i + 1), sep),
{
    assert forall|j: int| 0 <= j < s.subrange(fs, i + 1).len() implies #[trigger] s.subrange(
        fs,
        i + 1,
    )[j] != sep by {
        if j < i - fs {
            assert(s.subrange(fs, i + 1)[j] == s.subrange(fs, i)[j]);
        }
    }
}

} // verus!
