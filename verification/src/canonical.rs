//! The canonical text of fragments, and the law that reading it again gives
//! the same fragments.

use crate::grammar::{
    decimal_value, fragments_from, in_class, lemma_fragment_consumes, lemma_run_len_bounds,
    lemma_run_len_is, renderable, request_fragment_outcome, request_fragments, resolve, run_len,
    tail_from, well_formed, ByteClass, FragmentSpec, BACKSLASH, COMMA, DIGIT_ZERO, OPEN_BRACE,
    CLOSE_BRACE,
};
use crate::spelling::{braced, denotes, lemma_spelling_is_read, spells};
use vstd::prelude::*;
use vstd::utf8::encode_scalar;

verus! {

/// The decimal digits of a number, without leading zeros.
pub open spec fn decimal_digits(n: nat) -> Seq<u8>
    decreases n,
{
    if n < 10 {
        seq![(DIGIT_ZERO + n) as u8]
    } else {
        decimal_digits(n / 10).push((DIGIT_ZERO + n % 10) as u8)
    }
}

/// The text that stands for a fragment: a literal as it is, a character
/// after a backslash, a field reference in braces with its numbers in
/// decimal, without leading zeros.
pub open spec fn canonical_text(fragment: FragmentSpec) -> Seq<u8> {
    match fragment {
        FragmentSpec::Literal(bytes) => bytes,
        FragmentSpec::EscapedChar(c) => seq![BACKSLASH] + encode_scalar(c as u32),
        FragmentSpec::SingleField(field) => braced(decimal_digits(field as nat)),
        FragmentSpec::FieldRange(lo, hi) => braced(
            decimal_digits(lo as nat) + seq![COMMA] + decimal_digits(hi as nat),
        ),
        FragmentSpec::UnboundedFieldRange(lo) => braced(decimal_digits(lo as nat) + seq![COMMA]),
        FragmentSpec::Implicit => seq![OPEN_BRACE, CLOSE_BRACE],
    }
}

/// The text that stands for a run of fragments: the texts of the fragments,
/// one after the other.
pub open spec fn canonical_template(fragments: Seq<FragmentSpec>) -> Seq<u8>
    decreases fragments.len(),
{
    if fragments.len() == 0 {
        Seq::empty()
    } else {
        canonical_text(fragments[0]) + canonical_template(fragments.drop_first())
    }
}

/// A fragment as the parser yields it: it can be rendered, and a literal is
/// a run of literal bytes that is not empty.
pub open spec fn as_parsed(fragment: FragmentSpec) -> bool {
    &&& renderable(fragment)
    &&& fragment matches FragmentSpec::Literal(bytes) ==> {
        &&& bytes.len() > 0
        &&& forall|j: int| 0 <= j < bytes.len() ==> in_class(ByteClass::Literal, bytes[j])
    }
}

/// A run of fragments as the parser yields it: each is as parsed, and no
/// literal follows a literal.
pub open spec fn run_as_parsed(fragments: Seq<FragmentSpec>) -> bool {
    &&& forall|i: int| 0 <= i < fragments.len() ==> as_parsed(#[trigger] fragments[i])
    &&& forall|i: int|
        0 <= i < fragments.len() - 1 && fragments[i] is Literal ==> !(
        #[trigger] fragments[i + 1] is Literal)
}

/// The digits of a number are digits, at least one, and denote the number.
pub proof fn lemma_decimal_digits(n: nat)
    ensures
        decimal_digits(n).len() >= 1,
        forall|j: int|
            0 <= j < decimal_digits(n).len() ==> in_class(
                ByteClass::Digit,
                #[trigger] decimal_digits(n)[j],
            ),
        decimal_value(decimal_digits(n)) == n,
    decreases n,
{
    let d = decimal_digits(n);
    if n < 10 {
        assert(d.drop_last() == Seq::<u8>::empty());
        assert(decimal_value(d.drop_last()) == 0);
    } else {
        lemma_decimal_digits(n / 10);
        assert(d.drop_last() == decimal_digits(n / 10));
    }
}

/// The canonical text of a fragment as parsed spells the fragment.
pub proof fn lemma_canonical_text_spells(fragment: FragmentSpec)
    requires
        as_parsed(fragment),
    ensures
        spells(canonical_text(fragment), fragment),
{
    match fragment {
        FragmentSpec::SingleField(field) => {
            lemma_decimal_digits(field as nat);
            assert(denotes(decimal_digits(field as nat), field));
        },
        FragmentSpec::FieldRange(lo, hi) => {
            lemma_decimal_digits(lo as nat);
            lemma_decimal_digits(hi as nat);
            assert(denotes(decimal_digits(lo as nat), lo) && denotes(
                decimal_digits(hi as nat),
                hi,
            ));
        },
        FragmentSpec::UnboundedFieldRange(lo) => {
            lemma_decimal_digits(lo as nat);
            assert(denotes(decimal_digits(lo as nat), lo));
        },
        _ => {},
    }
}

/// The text of fragments as parsed that do not begin with a literal is
/// empty or begins with `{` or `\`.
pub proof fn lemma_canonical_template_starts(fragments: Seq<FragmentSpec>)
    requires
        run_as_parsed(fragments),
        fragments.len() > 0 ==> !(fragments[0] is Literal),
    ensures
        canonical_template(fragments).len() == 0 || !in_class(
            ByteClass::Literal,
            canonical_template(fragments)[0],
        ),
{
    if fragments.len() > 0 {
        let first = canonical_text(fragments[0]);
        let text = canonical_template(fragments);
        assert(as_parsed(fragments[0]));
        assert(first.len() > 0 && !in_class(ByteClass::Literal, first[0]));
        assert(text[0] == first[0]);
    }
}

/// Reading the text of fragments as parsed gives these fragments again and
/// leaves nothing.
pub proof fn lemma_read_canonical_template(fragments: Seq<FragmentSpec>, implicit_seen: int)
    requires
        run_as_parsed(fragments),
    ensures
        fragments_from(canonical_template(fragments), implicit_seen) == fragments,
        tail_from(canonical_template(fragments)).len() == 0,
    decreases fragments.len(),
{
    let text = canonical_template(fragments);
    if fragments.len() == 0 {
        lemma_run_len_is(text, ByteClass::Literal, 0);
        assert(fragments_from(text, implicit_seen) == fragments);
    } else {
        let first = fragments[0];
        let others = fragments.drop_first();
        let rest = canonical_template(others);
        assert(as_parsed(first));
        assert forall|i: int| 0 <= i < others.len() implies as_parsed(#[trigger] others[i]) by {
            assert(others[i] == fragments[i + 1]);
        }
        assert forall|i: int| 0 <= i < others.len() - 1 && others[i] is Literal implies !(
        #[trigger] others[i + 1] is Literal) by {
            assert(others[i] == fragments[i + 1]);
            assert(others[i + 1] == fragments[i + 1 + 1]);
        }
        if first is Literal {
            if others.len() > 0 {
                assert(others[0] == fragments[1]);
            }
            lemma_canonical_template_starts(others);
        }
        lemma_canonical_text_spells(first);
        lemma_spelling_is_read(canonical_text(first), first, rest);
        lemma_fragment_consumes(text);
        lemma_read_canonical_template(others, implicit_seen);
        assert(resolve(first, implicit_seen + 1) == first);
        assert(seq![first] + others == fragments);
    }
}

/// The fragments read from a text are as parsed; and where the text does
/// not begin with a literal byte, neither do the fragments begin with a
/// literal.
pub proof fn lemma_read_is_as_parsed(s: Seq<u8>, implicit_seen: int)
    requires
        0 <= implicit_seen,
        implicit_seen + s.len() <= usize::MAX,
    ensures
        run_as_parsed(fragments_from(s, implicit_seen)),
        s.len() == 0 || !in_class(ByteClass::Literal, s[0]) ==> fragments_from(
            s,
            implicit_seen,
        ).len() == 0 || !(fragments_from(s, implicit_seen)[0] is Literal),
    decreases s.len(),
{
    let all = fragments_from(s, implicit_seen);
    lemma_run_len_bounds(s, ByteClass::Literal);
    match request_fragment_outcome(s) {
        Err(_) => {},
        Ok((rest, fragment)) => {
            lemma_fragment_consumes(s);
            let seen = if fragment is Implicit {
                implicit_seen + 1
            } else {
                implicit_seen
            };
            let first = resolve(fragment, implicit_seen + 1);
            let others = fragments_from(rest, seen);
            lemma_read_is_as_parsed(rest, seen);
            assert(all == seq![first] + others);
            assert(as_parsed(first));
            assert forall|i: int| 0 <= i < all.len() implies as_parsed(#[trigger] all[i]) by {
                if i > 0 {
                    assert(all[i] == others[i - 1]);
                }
            }
            assert forall|i: int| 0 <= i < all.len() - 1 && all[i] is Literal implies !(
            #[trigger] all[i + 1] is Literal) by {
                assert(all[i + 1] == others[i]);
                if i > 0 {
                    assert(all[i] == others[i - 1]);
                    assert(others[i] == others[i - 1 + 1]);
                } else {
                    let n = run_len(s, ByteClass::Literal) as int;
                    assert(rest == s.skip(n));
                    if rest.len() > 0 {
                        assert(rest[0] == s[n]);
                    }
                }
            }
        },
    }
}

/// Writing the fragments of a well-formed template in their canonical text
/// and reading that text gives the same fragments: the text is well formed,
/// and its fragments are those of the template.
pub proof fn lemma_canonical_round_trip(template: Seq<u8>)
    requires
        well_formed(template),
        template.len() <= usize::MAX,
    ensures
        well_formed(canonical_template(request_fragments(template))),
        request_fragments(canonical_template(request_fragments(template))) == request_fragments(
            template,
        ),
{
    lemma_read_is_as_parsed(template, 0);
    lemma_read_canonical_template(request_fragments(template), 0);
}

} // verus!
