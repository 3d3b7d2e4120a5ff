//! Stable, machine-facing handles: `window:N`, `workspace:N` and `surface:N`.
use vstd::prelude::*;
use vstd::string::*;

use crate::text::{
    all_digits, decimal, digit_char, digit_value, digits_value, is_digit, parse_u64, parse_u64_spec,
    push_decimal, str_eq,
};

verus! {

/// The three kinds of object that a handle can name.
#[derive(Debug, Clone, Copy, PartialEq, Eq, Structural)]
pub enum HandleKind {
    Window,
    Workspace,
    Surface,
}

/// The word that names a kind in a handle.
pub open spec fn kind_word(kind: HandleKind) -> Seq<char> {
    match kind {
        HandleKind::Window => "window"@,
        HandleKind::Workspace => "workspace"@,
        HandleKind::Surface => "surface"@,
    }
}

/// The handle of object `id` of the given kind: the kind's word, `:`, and the id in decimal.
pub open spec fn handle_ref_spec(kind: HandleKind, id: u64) -> Seq<char> {
    kind_word(kind) + seq![':'] + decimal(id as nat)
}

/// The kind whose word is `word`, if any.
pub open spec fn kind_of_word(word: Seq<char>) -> Option<HandleKind> {
    if word == "window"@ {
        Some(HandleKind::Window)
    } else if word == "workspace"@ {
        Some(HandleKind::Workspace)
    } else if word == "surface"@ {
        Some(HandleKind::Surface)
    } else {
        None
    }
}

/// What a handle denotes: the text before its first `:` must be a kind's word, and the
/// text after it a `u64` as `FromStr` reads one. A handle without `:` denotes nothing.
pub open spec fn parse_handle_ref_spec(handle: Seq<char>) -> Option<(HandleKind, u64)> {
    match handle.index_of_first(':') {
        None => None,
        Some(i) => match (kind_of_word(handle.take(i)), parse_u64_spec(handle.skip(i + 1))) {
            (Some(kind), Some(id)) => Some((kind, id)),
            _ => None,
        },
    }
}

fn make_ref(word: &str, id: u64) -> (r: String)
    ensures
        r@ == word@ + seq![':'] + decimal(id as nat),
{
    let mut s = String::new();
    s.append(word);
    s.append(":");
    proof {
        reveal_strlit(":");
    }
    push_decimal(&mut s, id);
    s
}

/// The handle of a window: `window:` and its id in decimal.
pub fn window_ref(window_id: u64) -> (r: String)
    ensures
        r@ == handle_ref_spec(HandleKind::Window, window_id),
{
    make_ref("window", window_id)
}

/// The handle of a workspace: `workspace:` and its id in decimal.
pub fn workspace_ref(window_id: u64) -> (r: String)
    ensures
        r@ == handle_ref_spec(HandleKind::Workspace, window_id),
{
    make_ref("workspace", window_id)
}

/// The handle of a surface: `surface:` and its id in decimal.
pub fn surface_ref(window_id: u64) -> (r: String)
    ensures
        r@ == handle_ref_spec(HandleKind::Surface, window_id),
{
    make_ref("surface", window_id)
}

/// Reads a handle back into its kind and id.
pub fn parse_handle_ref(handle: &str) -> (r: Option<(HandleKind, u64)>)
    ensures
        r == parse_handle_ref_spec(handle@),
{
    let n = handle.unicode_len();
    let mut i: usize = 0;
    while i < n
        invariant
            n == handle@.len(),
            i <= n,
            forall|j: int| 0 <= j < i ==> handle@[j] != ':',
        ensures
            i <= n,
            forall|j: int| 0 <= j < i ==> handle@[j] != ':',
            i < n ==> handle@[i as int] == ':',
        decreases n - i,
    {
        if handle.get_char(i) == ':' {
            break;
        }
        i = i + 1;
    }
    proof {
        handle@.index_of_first_ensures(':');
    }
    if i == n {
        assert(!handle@.contains(':'));
        return None;
    }
    assert(handle@.index_of_first(':') == Some(i as int));
    let word = handle.substring_char(0, i);
    let rest = handle.substring_char(i + 1, n);
    assert(word@ == handle@.take(i as int));
    assert(rest@ == handle@.skip(i + 1));
    let id = match parse_u64(rest) {
        Some(id) => id,
        None => return None,
    };
    let kind = if str_eq(word, "window") {
        HandleKind::Window
    } else if str_eq(word, "workspace") {
        HandleKind::Workspace
    } else if str_eq(word, "surface") {
        HandleKind::Surface
    } else {
        return None;
    };
    Some((kind, id))
}

/// The decimal rendering of `n` is a nonempty run of digits worth `n`.
pub proof fn lemma_decimal_digits(n: nat)
    ensures
        decimal(n).len() > 0,
        all_digits(decimal(n)),
        digits_value(decimal(n)) == n,
    decreases n,
{
    assert(digit_value(digit_char(n % 10)) == n % 10);
    if n >= 10 {
        lemma_decimal_digits(n / 10);
        let d = decimal(n);
        assert(d.drop_last() =~= decimal(n / 10));
        assert(d.last() == digit_char(n % 10));
        assert(digits_value(d) == digits_value(decimal(n / 10)) * 10 + n % 10);
        assert((n / 10) * 10 + n % 10 == n);
        assert forall|i: int| 0 <= i < d.len() implies is_digit(#[trigger] d[i]) by {
            if i < d.len() - 1 {
                assert(d[i] == decimal(n / 10)[i]);
            }
        }
    } else {
        assert(decimal(n).drop_last() =~= Seq::<char>::empty());
        assert(digits_value(Seq::<char>::empty()) == 0);
    }
}

/// Distinct numbers have distinct decimal renderings.
pub proof fn lemma_decimal_injective(a: nat, b: nat)
    requires
        decimal(a) == decimal(b),
    ensures
        a == b,
{
    lemma_decimal_digits(a);
    lemma_decimal_digits(b);
}

/// Reading a decimal rendering gives back the number.
pub proof fn lemma_parse_decimal(n: u64)
    ensures
        parse_u64_spec(decimal(n as nat)) == Some(n),
{
    lemma_decimal_digits(n as nat);
    let d = decimal(n as nat);
    assert(is_digit(d[0]));
}

/// A handle that the library makes reads back as the kind and id it was made from.
pub proof fn lemma_handle_ref_roundtrip(kind: HandleKind, id: u64)
    ensures
        parse_handle_ref_spec(handle_ref_spec(kind, id)) == Some((kind, id)),
{
    reveal_strlit("window");
    reveal_strlit("workspace");
    reveal_strlit("surface");
    let h = handle_ref_spec(kind, id);
    let w = kind_word(kind);
    let d = decimal(id as nat);
    lemma_decimal_digits(id as nat);
    lemma_parse_decimal(id);
    h.index_of_first_ensures(':');
    assert(h[w.len() as int] == ':');
    assert forall|j: int| 0 <= j < w.len() implies h[j] != ':' by {
        assert(h[j] == w[j]);
    }
    assert(h.contains(':'));
    assert(h.index_of_first(':') == Some(w.len() as int));
    assert(h.take(w.len() as int) =~= w);
    assert(h.skip(w.len() as int + 1) =~= d);
}

/// Handles of different objects differ: a handle determines the kind and the id.
pub proof fn lemma_handle_ref_injective(k1: HandleKind, id1: u64, k2: HandleKind, id2: u64)
    requires
        handle_ref_spec(k1, id1) == handle_ref_spec(k2, id2),
    ensures
        k1 == k2,
        id1 == id2,
{
    lemma_handle_ref_roundtrip(k1, id1);
    lemma_handle_ref_roundtrip(k2, id2);
}


/// A handle reads as a kind and an id only when it is exactly that kind's word, then `:`,
/// then text that reads as the id: no other word, and nothing before the word, is accepted.
pub proof fn lemma_parsed_handle_shape(handle: Seq<char>, kind: HandleKind, id: u64)
    requires
        parse_handle_ref_spec(handle) == Some((kind, id)),
    ensures
        handle.len() > kind_word(kind).len(),
        handle.take(kind_word(kind).len() as int) == kind_word(kind),
        handle[kind_word(kind).len() as int] == ':',
        parse_u64_spec(handle.skip(kind_word(kind).len() as int + 1)) == Some(id),
{
    reveal_strlit("window");
    reveal_strlit("workspace");
    reveal_strlit("surface");
    handle.index_of_first_ensures(':');
    let i = handle.index_of_first(':')->0;
    assert(handle.take(i) == kind_word(kind));
}

} // verus!
