//! Item identifiers, and the names under which an item's fields and its
//! record are known to the search engine and to the store.
//!
//! An identifier is a 128-bit number. Its text is the hyphenated lower-case
//! form, 36 characters long. The engine knows the field `f` of the item `id`
//! as the text of `id`, an underscore and `f`. As the text of an identifier
//! holds no underscore, the identifier is read back from what stands before
//! the first one.

use vstd::arithmetic::div_mod::{lemma_basic_div, lemma_div_denominator};
use vstd::prelude::*;
use vstd::string::*;
use crate::fault::Fault;
use crate::scan::{find_char, first_index, lemma_first_index_bounds, lemma_first_index_is};

verus! {

/// The hexadecimal digit of a number below sixteen, in lower case.
pub open spec fn hex_digit(n: int) -> char {
    seq!['0', '1', '2', '3', '4', '5', '6', '7', '8', '9', 'a', 'b', 'c', 'd', 'e', 'f'][n]
}

/// Sixteen to the power `n`.
pub open spec fn sixteen_to(n: nat) -> int
    decreases n,
{
    if n == 0 {
        1
    } else {
        16 * sixteen_to((n - 1) as nat)
    }
}

/// The `k`-th of the 32 hexadecimal digits of `id`, the most significant
/// one first.
pub open spec fn nibble(id: u128, k: int) -> int {
    (id as int / sixteen_to((31 - k) as nat)) % 16
}

/// Whether a hyphen stands at place `i` of an identifier's text.
pub open spec fn is_hyphen_slot(i: int) -> bool {
    i == 8 || i == 13 || i == 18 || i == 23
}

/// Which of the 32 digits stands at place `i` of an identifier's text.
pub open spec fn digit_slot(i: int) -> int {
    if i < 8 {
        i
    } else if i < 13 {
        i - 1
    } else if i < 18 {
        i - 2
    } else if i < 23 {
        i - 3
    } else {
        i - 4
    }
}

/// The text of an identifier: its 32 lower-case hexadecimal digits in
/// groups of 8, 4, 4, 4 and 12, with a hyphen between two groups.
pub open spec fn id_text(id: u128) -> Seq<char> {
    Seq::new(
        36,
        |i: int|
            if is_hyphen_slot(i) {
                '-'
            } else {
                hex_digit(nibble(id, digit_slot(i)))
            },
    )
}

/// The name under which the engine knows the field `field` of the item `id`.
pub open spec fn object_name(id: u128, field: Seq<char>) -> Seq<char> {
    id_text(id) + seq!['_'] + field
}

/// What stands before the first underscore of an object's name; the whole
/// name where it holds none.
pub open spec fn owner_text(object: Seq<char>) -> Seq<char> {
    object.take(first_index(object, '_'))
}

/// The key under which the store keeps the record of the item `id`.
pub open spec fn record_key(id: u128) -> Seq<char> {
    seq!['i', 't', 'e', 'm', 's', '_'] + id_text(id)
}

/// The identifier that a text stands for, if it stands for one. All the
/// forms in which an identifier may be written are read, not the hyphenated
/// one alone.
pub uninterp spec fn parsed_id(text: Seq<char>) -> Option<u128>;

/// The item that an object of the engine belongs to, read from its name.
pub open spec fn object_owner(object: Seq<char>) -> Option<u128> {
    parsed_id(owner_text(object))
}

/// `uuid::Error`, what `uuid::Uuid::parse_str` fails with. Nothing is read
/// from it.
#[verifier::external_type_specification]
#[verifier::external_body]
pub struct ExIdError(uuid::Error);

/// `uuid::Uuid::parse_str`, the identifier handed back as a number
/// (`Uuid::as_u128`). The contract gives what was read the name
/// `parsed_id`: the same text is always read alike. Which texts are read it
/// does not say.
#[verifier::external_body]
fn parse_uuid(text: &str) -> (r: Result<u128, uuid::Error>)
    ensures
        match r {
            Ok(id) => parsed_id(text@) == Some(id),
            Err(_) => parsed_id(text@) is None,
        },
{
    match uuid::Uuid::parse_str(text) {
        Ok(id) => Ok(id.as_u128()),
        Err(e) => Err(e),
    }
}

/// What `Display` writes for the `uuid::Uuid` made of `id`
/// (`Uuid::from_u128`): the hyphenated form in lower case, which `id_text`
/// spells out digit by digit. The contract also claims that
/// `uuid::Uuid::parse_str` reads that text as `id` again, as the crate
/// promises of every form that it writes.
#[verifier::external_body]
fn format_uuid(id: u128) -> (r: String)
    ensures
        r@ == id_text(id),
        parsed_id(r@) == Some(id),
{
    format!("{}", uuid::Uuid::from_u128(id))
}

/// Every character of an identifier's text is a hyphen or a lower-case
/// hexadecimal digit.
pub proof fn lemma_id_text_chars(id: u128, i: int)
    requires
        0 <= i < 36,
    ensures
        id_text(id).len() == 36,
        id_text(id)[i] == '-' || ('0' <= id_text(id)[i] <= '9') || ('a' <= id_text(id)[i] <= 'f'),
        id_text(id)[i] != '_',
{
    if !is_hyphen_slot(i) {
        let n = nibble(id, digit_slot(i));
        assert(0 <= n < 16);
    }
}

/// The name of an object gives back the text of the identifier it was made
/// of, whatever the field.
pub proof fn lemma_owner_of_object_name(id: u128, field: Seq<char>)
    ensures
        first_index(object_name(id, field), '_') == 36,
        owner_text(object_name(id, field)) == id_text(id),
{
    let name = object_name(id, field);
    assert(name.len() == 37 + field.len());
    assert forall|j: int| 0 <= j < 36 implies name[j] != '_' by {
        lemma_id_text_chars(id, j);
        assert(name[j] == id_text(id)[j]);
    }
    assert(name[36] == '_');
    lemma_first_index_is(name, '_', 36);
    assert(name.take(36) =~= id_text(id));
}

/// Two fields of one item have two names.
pub proof fn lemma_object_name_injective(id: u128, f: Seq<char>, g: Seq<char>)
    requires
        object_name(id, f) == object_name(id, g),
    ensures
        f == g,
{
    let a = object_name(id, f);
    let b = object_name(id, g);
    assert(a.len() == 37 + f.len());
    assert(b.len() == 37 + g.len());
    assert forall|j: int| 0 <= j < f.len() implies f[j] == g[j] by {
        assert(a[37 + j] == f[j]);
        assert(b[37 + j] == g[j]);
    }
    assert(f =~= g);
}

/// The number that the first `k + 1` digits of `id` spell.
pub open spec fn leading(id: u128, k: int) -> int {
    id as int / sixteen_to((31 - k) as nat)
}

/// The place of an identifier's text at which its `k`-th digit stands.
pub open spec fn slot_of_digit(k: int) -> int {
    if k < 8 {
        k
    } else if k < 12 {
        k + 1
    } else if k < 16 {
        k + 2
    } else if k < 20 {
        k + 3
    } else {
        k + 4
    }
}

/// A power of sixteen is positive.
proof fn lemma_sixteen_to_positive(n: nat)
    ensures
        sixteen_to(n) > 0,
    decreases n,
{
    if n > 0 {
        lemma_sixteen_to_positive((n - 1) as nat);
    }
}

/// Sixteen to the power 32 is one more than the largest identifier.
proof fn lemma_sixteen_to_32()
    ensures
        sixteen_to(32) == 0x1_0000_0000_0000_0000_0000_0000_0000_0000,
{
    reveal_with_fuel(sixteen_to, 9);
    assert(sixteen_to(8) == 0x1_0000_0000);
    assert(sixteen_to(16) == 0x1_0000_0000_0000_0000);
    assert(sixteen_to(24) == 0x1_0000_0000_0000_0000_0000_0000);
}

/// One more digit: sixteen times what the digits before spell, and the
/// digit.
proof fn lemma_leading_step(id: u128, k: int)
    requires
        0 <= k <= 31,
    ensures
        leading(id, k) == 16 * leading(id, k - 1) + nibble(id, k),
{
    let unit = sixteen_to((31 - k) as nat);
    lemma_sixteen_to_positive((31 - k) as nat);
    assert(sixteen_to((32 - k) as nat) == 16 * unit);
    lemma_div_denominator(id as int, unit, 16);
    assert(unit * 16 == 16 * unit);
    let q = id as int / unit;
    assert(q == 16 * (q / 16) + q % 16);
}

/// Two identifiers with the same first digits spell the same number with
/// them.
proof fn lemma_leading_equal(a: u128, b: u128, k: int)
    requires
        -1 <= k <= 31,
        forall|j: int| 0 <= j <= k ==> nibble(a, j) == nibble(b, j),
    ensures
        leading(a, k) == leading(b, k),
    decreases k + 1,
{
    if k == -1 {
        lemma_sixteen_to_32();
        lemma_basic_div(a as int, sixteen_to(32));
        lemma_basic_div(b as int, sixteen_to(32));
    } else {
        lemma_leading_equal(a, b, k - 1);
        lemma_leading_step(a, k);
        lemma_leading_step(b, k);
    }
}

/// Two identifiers have two texts.
pub proof fn lemma_id_text_injective(a: u128, b: u128)
    requires
        id_text(a) == id_text(b),
    ensures
        a == b,
{
    assert forall|j: int| 0 <= j <= 31 implies nibble(a, j) == nibble(b, j) by {
        let i = slot_of_digit(j);
        assert(!is_hyphen_slot(i) && digit_slot(i) == j);
        assert(id_text(a)[i] == hex_digit(nibble(a, j)));
        assert(id_text(b)[i] == hex_digit(nibble(b, j)));
        assert(0 <= nibble(a, j) < 16);
        assert(0 <= nibble(b, j) < 16);
    }
    lemma_leading_equal(a, b, 31);
    assert(sixteen_to(0) == 1);
}

/// The text of an identifier, as the engine and the store are given it.
/// It is read back as the identifier.
pub fn id_string(id: u128) -> (r: String)
    ensures
        r@ == id_text(id),
        parsed_id(r@) == Some(id),
{
    format_uuid(id)
}

/// The name of the object that stands for the field `field` of the item
/// `id`. A hit on that object is read back as a hit on the item.
pub fn object_id(id: u128, field: &str) -> (r: String)
    ensures
        r@ == object_name(id, field@),
        object_owner(r@) == Some(id),
{
    let mut r = format_uuid(id);
    proof {
        reveal_strlit("_");
        lemma_owner_of_object_name(id, field@);
    }
    r.append("_");
    r.append(field);
    assert("_"@ =~= seq!['_']);
    r
}

/// The key of the record of the item `id`.
pub fn storage_key(id: u128) -> (r: String)
    ensures
        r@ == record_key(id),
{
    proof {
        reveal_strlit("items_");
    }
    let mut r = String::from_str("items_");
    let t = format_uuid(id);
    r.append(t.as_str());
    assert("items_"@ =~= seq!['i', 't', 'e', 'm', 's', '_']);
    r
}

/// What stands before the first underscore of an object's name.
pub fn owner_of(object: &str) -> (r: &str)
    ensures
        r@ == owner_text(object@),
{
    let n = find_char(object, '_');
    proof {
        lemma_first_index_bounds(object@, '_');
    }
    object.substring_char(0, n)
}

/// The identifier that a text stands for. A text that stands for none is a
/// fault of the engine, which is where such texts come from.
pub fn read_id(text: &str) -> (r: Result<u128, Fault>)
    ensures
        match r {
            Ok(id) => parsed_id(text@) == Some(id),
            Err(fault) => parsed_id(text@) is None && fault == Fault::EngineFault,
        },
{
    match parse_uuid(text) {
        Ok(id) => Ok(id),
        Err(_) => Err(Fault::EngineFault),
    }
}

/// The item that a hit of the engine belongs to.
pub fn decode_object_id(object: &str) -> (r: Result<u128, Fault>)
    ensures
        match r {
            Ok(id) => object_owner(object@) == Some(id),
            Err(fault) => object_owner(object@) is None && fault == Fault::EngineFault,
        },
{
    read_id(owner_of(object))
}

} // verus!
