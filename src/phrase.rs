//! Joining items into a phrase such as `"a, b, and c"`.
use itertools::Itertools;
use vstd::prelude::*;
use vstd::string::StringExecFns;
use vstd::string::to_string_from_display_ensures;

verus! {

/// The texts in `parts`, with `sep` between each two of them.
pub open spec fn joined(parts: Seq<Seq<char>>, sep: Seq<char>) -> Seq<char>
    decreases parts.len(),
{
    if parts.len() == 0 {
        Seq::empty()
    } else if parts.len() == 1 {
        parts[0]
    } else {
        joined(parts.drop_last(), sep) + sep + parts.last()
    }
}

/// What an empty list reads as.
pub open spec fn none_text() -> Seq<char> {
    seq!['(', 'n', 'o', 'n', 'e', ')']
}

/// The phrase for the texts `items` joined by `conjunction`:
/// `"(none)"`, `"a"`, `"a and b"`, or `"a, b, and c"`.
pub open spec fn conjoined(conjunction: Seq<char>, items: Seq<Seq<char>>) -> Seq<char> {
    if items.len() == 0 {
        none_text()
    } else if items.len() == 1 {
        items[0]
    } else if items.len() == 2 {
        items[0] + seq![' '] + conjunction + seq![' '] + items[1]
    } else {
        joined(items.drop_last(), seq![',', ' ']) + seq![',', ' '] + conjunction + seq![' ']
            + items.last()
    }
}

/// The texts of a sequence of strings.
pub open spec fn texts_of(items: Seq<String>) -> Seq<Seq<char>> {
    items.map_values(|t: String| t@)
}

/// Relies on `Itertools::join`: it writes the first item, then `sep` and the
/// next item for each further one; a `String` writes itself unchanged.
#[verifier::external_body]
fn join_parts(parts: &[String], sep: &str) -> (r: String)
    ensures
        r@ == joined(texts_of(parts@), sep@),
{
    parts.iter().join(sep)
}

/// Joins the texts `items` into a phrase with `conjunction` before the last
/// one, and `"(none)"` for no items.
pub fn join_texts_with_conjunction(conjunction: &str, items: &[String]) -> (r: String)
    ensures
        r@ == conjoined(conjunction@, texts_of(items@)),
{
    let n = items.len();
    if n == 0 {
        let r = String::from_str("(none)");
        proof {
            reveal_strlit("(none)");
        }
        assert(r@ =~= none_text());
        r
    } else if n == 1 {
        items[0].clone()
    } else if n == 2 {
        let mut r = items[0].clone();
        r.append(" ");
        r.append(conjunction);
        r.append(" ");
        r.append(items[1].as_str());
        proof {
            reveal_strlit(" ");
        }
        assert(r@ =~= conjoined(conjunction@, texts_of(items@)));
        r
    } else {
        let (head, tail) = items.split_at(n - 1);
        let mut r = join_parts(head, ", ");
        r.append(", ");
        r.append(conjunction);
        r.append(" ");
        r.append(tail[0].as_str());
        proof {
            reveal_strlit(", ");
            reveal_strlit(" ");
            assert(texts_of(head@) =~= texts_of(items@).drop_last());
            assert(tail@[0] == items@[n - 1]);
            assert(texts_of(items@).last() == tail@[0]@);
            assert(", "@ =~= seq![',', ' ']);
            assert(" "@ =~= seq![' ']);
        }
        assert(r@ =~= conjoined(conjunction@, texts_of(items@)));
        r
    }
}

/// Joins the display forms of `items` into a phrase with `conjunction`
/// before the last one, and `"(none)"` for no items. Each item is rendered
/// once, through its own `Display`.
pub fn join_with_conjunction<T: std::fmt::Display>(conjunction: &str, items: &[T]) -> (r: String)
    ensures
        exists|texts: Seq<String>|
            {
                &&& texts.len() == items@.len()
                &&& forall|i: int|
                    0 <= i < texts.len() ==> to_string_from_display_ensures::<T>(
                        &#[trigger] items@[i],
                        texts[i],
                    )
                &&& r@ == conjoined(conjunction@, texts_of(texts))
            },
{
    let mut texts: Vec<String> = Vec::new();
    let mut i: usize = 0;
    while i < items.len()
        invariant
            i <= items@.len(),
            texts@.len() == i,
            forall|j: int|
                0 <= j < i ==> to_string_from_display_ensures::<T>(&#[trigger] items@[j], texts@[j]),
        decreases items@.len() - i,
    {
        let t = items[i].to_string();
        texts.push(t);
        i = i + 1;
    }
    let r = join_texts_with_conjunction(conjunction, texts.as_slice());
    assert(r@ == conjoined(conjunction@, texts_of(texts@)));
    r
}

} // verus!
