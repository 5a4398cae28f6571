//! What a wildcard pattern matches: a literal byte at the end of a pattern
//! must end the text, a pattern without wildcards matches only itself, and
//! `*` followed by literal bytes matches exactly the texts that end with them.
use vstd::prelude::*;

use super::glob;

verus! {

/// Whether `b` stands for itself in a pattern: neither `*` nor `?`.
pub open spec fn is_literal(b: u8) -> bool {
    b != 0x2A && b != 0x3F
}

/// Whether every byte of the pattern `p` stands for itself.
pub open spec fn no_wildcards(p: Seq<u8>) -> bool {
    forall|i: int| 0 <= i < p.len() ==> is_literal(#[trigger] p[i])
}

/// Whether `t` ends with `s`.
pub open spec fn ends_with(t: Seq<u8>, s: Seq<u8>) -> bool {
    t.len() >= s.len() && t.subrange(t.len() - s.len(), t.len() as int) == s
}

/// A pattern whose last byte is a literal byte `c` matches only texts that
/// are not empty and end with `c`.
pub proof fn literal_last_byte_ends_the_text(p: Seq<u8>, t: Seq<u8>)
    requires
        p.len() > 0,
        is_literal(p.last()),
        glob(p, t),
    ensures
        t.len() > 0,
        t.last() == p.last(),
    decreases p.len() + t.len(),
{
    if p[0] == 0x2A {
        if glob(p.drop_first(), t) {
            assert(p.len() > 1);
            assert(p.drop_first().last() == p.last());
            literal_last_byte_ends_the_text(p.drop_first(), t);
        } else {
            literal_last_byte_ends_the_text(p, t.drop_first());
            assert(t.drop_first().last() == t.last());
        }
    } else if p.len() == 1 {
        assert(glob(p.drop_first(), t.drop_first()));
        assert(t.drop_first().len() == 0);
        assert(p[0] == p.last());
        if p[0] == 0x3F {
            assert(false);
        }
    } else {
        assert(p.drop_first().last() == p.last());
        literal_last_byte_ends_the_text(p.drop_first(), t.drop_first());
        assert(t.drop_first().last() == t.last());
    }
}

/// A pattern without wildcards matches a text exactly when the text is the
/// pattern itself.
pub proof fn literal_pattern_matches_only_itself(p: Seq<u8>, t: Seq<u8>)
    requires
        no_wildcards(p),
    ensures
        glob(p, t) <==> p == t,
    decreases p.len(),
{
    if p.len() == 0 {
        if t.len() == 0 {
            assert(p =~= t);
        }
    } else {
        assert(is_literal(p[0]));
        assert(no_wildcards(p.drop_first())) by {
            assert forall|i: int| 0 <= i < p.drop_first().len() implies is_literal(
                #[trigger] p.drop_first()[i],
            ) by {
                assert(p.drop_first()[i] == p[i + 1]);
            }
        }
        literal_pattern_matches_only_itself(p.drop_first(), t.drop_first());
        if p == t {
            assert(p.drop_first() == t.drop_first());
        }
        if t.len() > 0 && p[0] == t[0] && p.drop_first() == t.drop_first() {
            assert forall|i: int| 0 <= i < p.len() implies p[i] == t[i] by {
                if i > 0 {
                    assert(p[i] == p.drop_first()[i - 1]);
                    assert(t[i] == t.drop_first()[i - 1]);
                }
            }
            assert(p =~= t);
        }
    }
}

/// `*` followed by bytes that stand for themselves matches a text exactly
/// when the text ends with those bytes: the star takes whatever comes before.
pub proof fn star_then_literals_matches_the_endings(s: Seq<u8>, t: Seq<u8>)
    requires
        no_wildcards(s),
    ensures
        glob(seq![0x2Au8] + s, t) <==> ends_with(t, s),
    decreases t.len(),
{
    let p = seq![0x2Au8] + s;
    assert(p[0] == 0x2A);
    assert(p.drop_first() =~= s);
    literal_pattern_matches_only_itself(s, t);
    if t.len() > 0 {
        star_then_literals_matches_the_endings(s, t.drop_first());
        let d = t.drop_first();
        if t.len() > s.len() {
            assert(t.subrange(t.len() - s.len(), t.len() as int) =~= d.subrange(
                d.len() - s.len(),
                d.len() as int,
            ));
            if s == t {
                assert(false);
            }
        } else if t.len() == s.len() {
            assert(t.subrange(0, t.len() as int) =~= t);
            assert(!ends_with(d, s));
        } else {
            assert(!ends_with(d, s));
            assert(s != t);
        }
    } else {
        if s.len() == 0 {
            assert(t.subrange(0, 0) =~= s);
            assert(s =~= t);
        }
    }
}

/// Without `*`, a pattern matches only texts of its own length: `?` and
/// every literal byte take exactly one byte.
pub proof fn pattern_without_star_matches_its_length(p: Seq<u8>, t: Seq<u8>)
    requires
        forall|i: int| 0 <= i < p.len() ==> #[trigger] p[i] != 0x2A,
        glob(p, t),
    ensures
        t.len() == p.len(),
    decreases p.len(),
{
    if p.len() > 0 {
        assert(p[0] != 0x2A);
        assert forall|i: int| 0 <= i < p.drop_first().len() implies #[trigger] p.drop_first()[i]
            != 0x2A by {
            assert(p.drop_first()[i] == p[i + 1]);
        }
        pattern_without_star_matches_its_length(p.drop_first(), t.drop_first());
    }
}

/// A pattern of `?` only matches every text of its length.
pub proof fn question_marks_match_any_text_of_their_length(p: Seq<u8>, t: Seq<u8>)
    requires
        forall|i: int| 0 <= i < p.len() ==> #[trigger] p[i] == 0x3F,
        t.len() == p.len(),
    ensures
        glob(p, t),
    decreases p.len(),
{
    if p.len() > 0 {
        assert(p[0] == 0x3F);
        assert forall|i: int| 0 <= i < p.drop_first().len() implies #[trigger] p.drop_first()[i]
            == 0x3F by {
            assert(p.drop_first()[i] == p[i + 1]);
        }
        question_marks_match_any_text_of_their_length(p.drop_first(), t.drop_first());
    }
}

} // verus!
