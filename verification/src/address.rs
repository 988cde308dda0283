//! The textual grammar of IPv4 and IPv6 address literals, over bytes.

use vstd::prelude::*;
use vstd::slice::slice_subrange;

verus! {

/// The byte `.`, which separates the octets of a dotted quad.
pub const DOT: u8 = 0x2e;

/// The byte `:`, which separates the groups of an IPv6 literal.
pub const COLON: u8 = 0x3a;

/// The byte `0`.
pub const ZERO: u8 = 0x30;

/// `b` is one of `0` to `9`.
pub open spec fn is_digit(b: u8) -> bool {
    0x30 <= b <= 0x39
}

/// `b` is one of `0` to `9`, `a` to `f` or `A` to `F`.
pub open spec fn is_hex_digit(b: u8) -> bool {
    is_digit(b) || 0x41 <= b <= 0x46 || 0x61 <= b <= 0x66
}

/// The length of the longest prefix of `s` that holds no `sep`.
pub open spec fn first_field_len(s: Seq<u8>, sep: u8) -> nat
    decreases s.len(),
{
    if s.len() == 0 || s[0] == sep {
        0
    } else {
        1 + first_field_len(s.skip(1), sep)
    }
}

/// The fields of `s`: what stands between its separators, in order. A text
/// with `n` separators has `n + 1` fields, some of which may be empty.
pub open spec fn split(s: Seq<u8>, sep: u8) -> Seq<Seq<u8>>
    decreases s.len(),
{
    let n = first_field_len(s, sep);
    if n >= s.len() {
        seq![s]
    } else {
        seq![s.take(n as int)] + split(s.skip(n as int + 1), sep)
    }
}

/// The texts that a list of slices holds.
pub open spec fn field_views(fields: Seq<&[u8]>) -> Seq<Seq<u8>> {
    Seq::new(fields.len(), |i: int| fields[i]@)
}

/// A prefix without separator that ends at a separator, or at the end of the
/// text, is the first field.
pub proof fn lemma_first_field_len(s: Seq<u8>, sep: u8, n: int)
    requires
        0 <= n <= s.len(),
        forall|k: int| 0 <= k < n ==> s[k] != sep,
        n < s.len() ==> s[n] == sep,
    ensures
        first_field_len(s, sep) == n,
    decreases n,
{
    if n > 0 {
        let rest = s.skip(1);
        assert forall|k: int| 0 <= k < n - 1 implies rest[k] != sep by {
            assert(rest[k] == s[k + 1]);
        }
        lemma_first_field_len(rest, sep, n - 1);
    }
}

/// Splits `s` at every `sep`.
pub fn split_fields<'a>(s: &'a [u8], sep: u8) -> (fields: Vec<&'a [u8]>)
    ensures
        field_views(fields@) == split(s@, sep),
        fields@.len() >= 1,
        fields@.len() + fields@.last()@.len() <= s@.len() + 1,
{
    let mut fields: Vec<&'a [u8]> = Vec::new();
    let mut start: usize = 0;
    let mut i: usize = 0;
    proof {
        assert(s@.skip(0) == s@);
        assert(field_views(fields@) + split(s@, sep) == split(s@, sep));
    }
    while i < s.len()
        invariant
            start <= i <= s@.len(),
            fields@.len() <= start,
            forall|k: int| start <= k < i ==> s@[k] != sep,
            field_views(fields@) + split(s@.skip(start as int), sep) == split(s@, sep),
        decreases s@.len() - i,
    {
        if s[i] == sep {
            let field = slice_subrange(s, start, i);
            proof {
                let rest = s@.skip(start as int);
                lemma_first_field_len(rest, sep, i - start);
                assert(rest.take(i - start) == field@);
                assert(rest.skip(i - start + 1) == s@.skip(i + 1));
                assert(field_views(fields@.push(field)) == field_views(fields@) + seq![field@]);
                assert(field_views(fields@) + (seq![field@] + split(s@.skip(i + 1), sep))
                    == field_views(fields@) + seq![field@] + split(s@.skip(i + 1), sep));
            }
            fields.push(field);
            start = i + 1;
        }
        i += 1;
    }
    let field = slice_subrange(s, start, s.len());
    proof {
        let rest = s@.skip(start as int);
        lemma_first_field_len(rest, sep, s@.len() - start);
        assert(rest == field@);
        assert(field_views(fields@.push(field)) == field_views(fields@) + seq![field@]);
    }
    fields.push(field);
    fields
}

/// What the decimal digit `b` counts.
pub open spec fn digit_value(b: u8) -> int {
    b - 0x30
}

/// The number that one to three decimal digits write.
pub open spec fn octet_value(s: Seq<u8>) -> int {
    if s.len() == 1 {
        digit_value(s[0])
    } else if s.len() == 2 {
        10 * digit_value(s[0]) + digit_value(s[1])
    } else {
        100 * digit_value(s[0]) + 10 * digit_value(s[1]) + digit_value(s[2])
    }
}

/// One field of a dotted quad: one to three decimal digits that write a
/// number up to 255, with no zero in front of another digit.
pub open spec fn is_octet(s: Seq<u8>) -> bool {
    &&& 1 <= s.len() <= 3
    &&& forall|i: int| 0 <= i < s.len() ==> is_digit(#[trigger] s[i])
    &&& (s.len() > 1 ==> s[0] != ZERO)
    &&& octet_value(s) <= 255
}

/// One group of an IPv6 literal: one to four hexadecimal digits.
pub open spec fn is_hextet(s: Seq<u8>) -> bool {
    &&& 1 <= s.len() <= 4
    &&& forall|i: int| 0 <= i < s.len() ==> is_hex_digit(#[trigger] s[i])
}

/// An IPv4 literal: four octets, joined by dots.
pub open spec fn is_ipv4_literal(s: Seq<u8>) -> bool {
    let fields = split(s, DOT);
    &&& fields.len() == 4
    &&& forall|i: int| 0 <= i < 4 ==> is_octet(#[trigger] fields[i])
}

/// Whether `field` is an octet.
pub fn check_octet(field: &[u8]) -> (ok: bool)
    ensures
        ok == is_octet(field@),
{
    let n: usize = field.len();
    if n == 0 || n > 3 {
        return false;
    }
    let mut value: u32 = 0;
    let mut i: usize = 0;
    while i < n
        invariant
            n == field@.len(),
            1 <= n <= 3,
            i <= n,
            forall|k: int| 0 <= k < i ==> is_digit(#[trigger] field@[k]),
            i == 0 ==> value == 0,
            i == 1 ==> value == digit_value(field@[0]),
            i == 2 ==> value == 10 * digit_value(field@[0]) + digit_value(field@[1]),
            i == 3 ==> value == 100 * digit_value(field@[0]) + 10 * digit_value(field@[1])
                + digit_value(field@[2]),
        decreases n - i,
    {
        let b: u8 = field[i];
        if b < 0x30 || b > 0x39 {
            return false;
        }
        value = value * 10 + (b - 0x30) as u32;
        i += 1;
    }
    if n > 1 && field[0] == ZERO {
        return false;
    }
    value <= 255
}

/// Whether `field` is a hextet.
pub fn check_hextet(field: &[u8]) -> (ok: bool)
    ensures
        ok == is_hextet(field@),
{
    let n: usize = field.len();
    if n == 0 || n > 4 {
        return false;
    }
    let mut i: usize = 0;
    while i < n
        invariant
            n == field@.len(),
            i <= n,
            forall|k: int| 0 <= k < i ==> is_hex_digit(#[trigger] field@[k]),
        decreases n - i,
    {
        let b: u8 = field[i];
        let digit = 0x30 <= b && b <= 0x39;
        let upper = 0x41 <= b && b <= 0x46;
        let lower = 0x61 <= b && b <= 0x66;
        if !(digit || upper || lower) {
            return false;
        }
        i += 1;
    }
    true
}

/// Whether `s` is an IPv4 literal.
pub fn check_ipv4(s: &[u8]) -> (ok: bool)
    ensures
        ok == is_ipv4_literal(s@),
{
    let fields = split_fields(s, DOT);
    if fields.len() != 4 {
        return false;
    }
    let mut i: usize = 0;
    while i < 4
        invariant
            i <= 4,
            fields@.len() == 4,
            field_views(fields@) == split(s@, DOT),
            forall|k: int| 0 <= k < i ==> is_octet(#[trigger] split(s@, DOT)[k]),
        decreases 4 - i,
    {
        assert(field_views(fields@)[i as int] == fields@[i as int]@);
        if !check_octet(fields[i]) {
            return false;
        }
        i += 1;
    }
    true
}

/// How many 16-bit groups `s` writes, where `s` is a list of hextets joined by
/// colons; the empty text writes none. `None` where `s` is no such list.
pub open spec fn hextet_groups(s: Seq<u8>) -> Option<nat> {
    let fields = split(s, COLON);
    if s.len() == 0 {
        Some(0)
    } else if forall|i: int| 0 <= i < fields.len() ==> is_hextet(#[trigger] fields[i]) {
        Some(fields.len())
    } else {
        None
    }
}

/// As `hextet_groups`, but the last field may be a dotted quad, which stands
/// for two groups.
pub open spec fn tail_groups(s: Seq<u8>) -> Option<nat> {
    let fields = split(s, COLON);
    if s.len() == 0 {
        Some(0)
    } else if forall|i: int| 0 <= i < fields.len() - 1 ==> is_hextet(#[trigger] fields[i]) {
        if is_hextet(fields.last()) {
            Some(fields.len())
        } else if is_ipv4_literal(fields.last()) {
            Some(fields.len() + 1)
        } else {
            None
        }
    } else {
        None
    }
}

/// Two colons stand at `p` and `p + 1`.
pub open spec fn double_colon_at(s: Seq<u8>, p: int) -> bool {
    0 <= p && p + 1 < s.len() && s[p] == COLON && s[p + 1] == COLON
}

/// The first `::` of `s` stands at `p`.
pub open spec fn is_first_double_colon(s: Seq<u8>, p: int) -> bool {
    double_colon_at(s, p) && forall|q: int| 0 <= q < p ==> !double_colon_at(s, q)
}

/// `s` has `::` at `p`, hextets before it, hextets and perhaps a closing
/// dotted quad after it, and the two sides write seven groups at most: the
/// `::` stands for the groups that are left, at least one.
pub open spec fn is_compressed_at(s: Seq<u8>, p: int) -> bool {
    double_colon_at(s, p) && match (
        hextet_groups(s.subrange(0, p)),
        tail_groups(s.subrange(p + 2, s.len() as int)),
    ) {
        (Some(head), Some(tail)) => head + tail <= 7,
        _ => false,
    }
}

/// An IPv6 literal: eight groups joined by colons, the last two of which may
/// be written as a dotted quad; or fewer groups, with `::` in place of the
/// missing ones.
pub open spec fn is_ipv6_literal(s: Seq<u8>) -> bool {
    tail_groups(s) == Some(8nat) || exists|p: int| is_compressed_at(s, p)
}

/// An address literal of either family.
pub open spec fn is_ip_literal(s: Seq<u8>) -> bool {
    is_ipv4_literal(s) || is_ipv6_literal(s)
}

/// Splitting leaves at most one field more than the text has bytes.
pub proof fn lemma_split_len(s: Seq<u8>, sep: u8)
    ensures
        1 <= split(s, sep).len() <= s.len() + 1,
    decreases s.len(),
{
    let n = first_field_len(s, sep);
    if n < s.len() {
        lemma_split_len(s.skip(n as int + 1), sep);
    }
}

/// The first field ends at the first separator, or at the end of the text.
pub proof fn lemma_first_field(s: Seq<u8>, sep: u8)
    ensures
        first_field_len(s, sep) <= s.len(),
        forall|k: int| 0 <= k < first_field_len(s, sep) ==> s[k] != sep,
        first_field_len(s, sep) < s.len() ==> s[first_field_len(s, sep) as int] == sep,
    decreases s.len(),
{
    if s.len() > 0 && s[0] != sep {
        let rest = s.skip(1);
        lemma_first_field(rest, sep);
        assert forall|k: int| 0 <= k < first_field_len(s, sep) implies s[k] != sep by {
            if k > 0 {
                assert(s[k] == rest[k - 1]);
            }
        }
        if first_field_len(s, sep) < s.len() {
            assert(s[first_field_len(s, sep) as int] == rest[first_field_len(rest, sep) as int]);
        }
    }
}

/// A text whose fields all hold something neither begins nor ends with a
/// separator, and holds no two separators in a row.
pub proof fn lemma_full_fields(s: Seq<u8>, sep: u8)
    requires
        forall|i: int| 0 <= i < split(s, sep).len() ==> (#[trigger] split(s, sep)[i]).len() > 0,
    ensures
        s.len() > 0,
        s[0] != sep,
        s.last() != sep,
        forall|q: int| 0 <= q && q + 1 < s.len() ==> !(s[q] == sep && #[trigger] s[q + 1] == sep),
    decreases s.len(),
{
    let n = first_field_len(s, sep) as int;
    lemma_first_field(s, sep);
    let fields = split(s, sep);
    assert(fields[0].len() > 0);
    if n < s.len() {
        let rest = s.skip(n + 1);
        assert(fields[0] == s.take(n));
        assert forall|i: int| 0 <= i < split(rest, sep).len() implies (#[trigger] split(
            rest,
            sep,
        )[i]).len() > 0 by {
            assert(split(rest, sep)[i] == fields[i + 1]);
        }
        lemma_full_fields(rest, sep);
        assert(rest[0] == s[n + 1]);
        assert(rest.last() == s.last());
        assert forall|q: int| 0 <= q && q + 1 < s.len() implies !(s[q] == sep && #[trigger] s[q
            + 1] == sep) by {
            if q > n {
                assert(s[q] == rest[q - n - 1]);
                assert(s[q + 1] == rest[(q - n - 1) + 1]);
            }
        }
    } else {
        assert(fields[0] == s);
    }
}

/// Only the first `::` of a text can stand for missing groups: with another
/// before it, the text before it is no list of hextets.
pub proof fn lemma_compressed_at_first(s: Seq<u8>, p: int)
    requires
        is_compressed_at(s, p),
    ensures
        is_first_double_colon(s, p),
{
    let head = s.subrange(0, p);
    if head.len() > 0 {
        assert forall|i: int| 0 <= i < split(head, COLON).len() implies (#[trigger] split(
            head,
            COLON,
        )[i]).len() > 0 by {
            assert(is_hextet(split(head, COLON)[i]));
        }
        lemma_full_fields(head, COLON);
        assert forall|q: int| 0 <= q < p implies !double_colon_at(s, q) by {
            if q + 1 < p {
                assert(head[q] == s[q]);
                assert(head[q + 1] == s[q + 1]);
            } else {
                assert(head.last() == s[q]);
            }
        }
    }
}

/// The text that fields make when a separator is put between each two.
pub open spec fn join(fields: Seq<Seq<u8>>, sep: u8) -> Seq<u8>
    decreases fields.len(),
{
    if fields.len() == 0 {
        Seq::empty()
    } else if fields.len() == 1 {
        fields[0]
    } else {
        fields[0] + seq![sep] + join(fields.skip(1), sep)
    }
}

/// No byte of the field is the separator.
pub open spec fn is_free_of(field: Seq<u8>, sep: u8) -> bool {
    forall|k: int| 0 <= k < field.len() ==> field[k] != sep
}

/// Joining the fields of a text gives the text back.
pub proof fn lemma_join_split(s: Seq<u8>, sep: u8)
    ensures
        join(split(s, sep), sep) == s,
    decreases s.len(),
{
    let n = first_field_len(s, sep) as int;
    lemma_first_field(s, sep);
    if n < s.len() {
        let rest = s.skip(n + 1);
        let fields = split(s, sep);
        lemma_join_split(rest, sep);
        lemma_split_len(rest, sep);
        assert(fields.skip(1) == split(rest, sep));
        assert(fields[0] == s.take(n));
        assert(s.take(n) + seq![sep] + rest == s);
    }
}

/// Splitting what was joined gives the fields back, where there is at least
/// one field and none holds the separator.
pub proof fn lemma_split_join(fields: Seq<Seq<u8>>, sep: u8)
    requires
        fields.len() >= 1,
        forall|i: int| 0 <= i < fields.len() ==> is_free_of(#[trigger] fields[i], sep),
    ensures
        split(join(fields, sep), sep) == fields,
    decreases fields.len(),
{
    let first = fields[0];
    let whole = join(fields, sep);
    assert(is_free_of(first, sep));
    if fields.len() == 1 {
        lemma_first_field_len(first, sep, first.len() as int);
        assert(split(whole, sep) == fields);
    } else {
        let others = fields.skip(1);
        assert forall|i: int| 0 <= i < others.len() implies is_free_of(
            #[trigger] others[i],
            sep,
        ) by {
            assert(others[i] == fields[i + 1]);
        }
        lemma_split_join(others, sep);
        assert(whole[first.len() as int] == sep);
        assert forall|k: int| 0 <= k < first.len() implies whole[k] != sep by {
            assert(whole[k] == first[k]);
        }
        lemma_first_field_len(whole, sep, first.len() as int);
        assert(whole.take(first.len() as int) == first);
        assert(whole.skip(first.len() as int + 1) == join(others, sep));
        assert(seq![first] + others == fields);
    }
}

/// Four fields with a dot between each two.
pub open spec fn dotted_quad(a: Seq<u8>, b: Seq<u8>, c: Seq<u8>, d: Seq<u8>) -> Seq<u8> {
    a + seq![DOT] + b + seq![DOT] + c + seq![DOT] + d
}

/// A dotted quad is its four fields, joined by dots.
pub proof fn lemma_dotted_quad_joins(a: Seq<u8>, b: Seq<u8>, c: Seq<u8>, d: Seq<u8>)
    ensures
        dotted_quad(a, b, c, d) == join(seq![a, b, c, d], DOT),
{
    let fields = seq![a, b, c, d];
    let three = fields.skip(1);
    let two = three.skip(1);
    let one = two.skip(1);
    assert(join(one, DOT) == d);
    assert(join(two, DOT) == c + seq![DOT] + d);
    assert(join(three, DOT) == b + seq![DOT] + (c + seq![DOT] + d));
    assert(join(fields, DOT) == a + seq![DOT] + (b + seq![DOT] + (c + seq![DOT] + d)));
    assert(join(fields, DOT) =~= dotted_quad(a, b, c, d));
}

/// An IPv4 literal is a dotted quad of octets, and every dotted quad of
/// octets is an IPv4 literal.
pub proof fn lemma_ipv4_is_dotted_quad(s: Seq<u8>)
    ensures
        is_ipv4_literal(s) <==> exists|a: Seq<u8>, b: Seq<u8>, c: Seq<u8>, d: Seq<u8>|
            is_octet(a) && is_octet(b) && is_octet(c) && is_octet(d) && s == #[trigger] dotted_quad(
                a,
                b,
                c,
                d,
            ),
{
    if is_ipv4_literal(s) {
        let fields = split(s, DOT);
        lemma_join_split(s, DOT);
        assert(fields == seq![fields[0], fields[1], fields[2], fields[3]]);
        lemma_dotted_quad_joins(fields[0], fields[1], fields[2], fields[3]);
        assert(is_octet(fields[0]) && is_octet(fields[1]) && is_octet(fields[2]) && is_octet(
            fields[3],
        ));
        assert(s == dotted_quad(fields[0], fields[1], fields[2], fields[3]));
    }
    if exists|a: Seq<u8>, b: Seq<u8>, c: Seq<u8>, d: Seq<u8>|
        is_octet(a) && is_octet(b) && is_octet(c) && is_octet(d) && s == #[trigger] dotted_quad(
            a,
            b,
            c,
            d,
        ) {
        let (a, b, c, d) = choose|a: Seq<u8>, b: Seq<u8>, c: Seq<u8>, d: Seq<u8>|
            is_octet(a) && is_octet(b) && is_octet(c) && is_octet(d) && s == #[trigger] dotted_quad(
                a,
                b,
                c,
                d,
            );
        let fields = seq![a, b, c, d];
        lemma_dotted_quad_joins(a, b, c, d);
        assert forall|i: int| 0 <= i < fields.len() implies is_free_of(
            #[trigger] fields[i],
            DOT,
        ) by {
            assert(is_octet(fields[i]));
            assert forall|k: int| 0 <= k < fields[i].len() implies fields[i][k] != DOT by {
                assert(is_digit(fields[i][k]));
            }
        }
        lemma_split_join(fields, DOT);
    }
}

/// Every field of the list is a hextet.
pub open spec fn all_hextets(groups: Seq<Seq<u8>>) -> bool {
    forall|i: int| 0 <= i < groups.len() ==> is_hextet(#[trigger] groups[i])
}

/// The fields of one side of an IPv6 literal: hextets, and after them the
/// dotted quad where the side closes with one.
pub open spec fn part_fields(groups: Seq<Seq<u8>>, quad: Option<Seq<u8>>) -> Seq<Seq<u8>> {
    match quad {
        Some(quad) => groups.push(quad),
        None => groups,
    }
}

/// How many 16-bit groups one side of an IPv6 literal writes: one for each
/// hextet, and two for a dotted quad.
pub open spec fn part_count(groups: Seq<Seq<u8>>, quad: Option<Seq<u8>>) -> nat {
    match quad {
        Some(_) => groups.len() + 2,
        None => groups.len(),
    }
}

/// `s` is hextets joined by colons, closed by an IPv4 literal where `quad`
/// gives one.
pub open spec fn is_part(s: Seq<u8>, groups: Seq<Seq<u8>>, quad: Option<Seq<u8>>) -> bool {
    &&& all_hextets(groups)
    &&& quad matches Some(q) ==> is_ipv4_literal(q)
    &&& s == join(part_fields(groups, quad), COLON)
}

/// `s` is the hextets of `head` joined by colons, then `::`, then `tail`.
pub open spec fn is_compressed(s: Seq<u8>, head: Seq<Seq<u8>>, tail: Seq<u8>) -> bool {
    all_hextets(head) && s == join(head, COLON) + seq![COLON, COLON] + tail
}

/// A hextet holds no colon.
pub proof fn lemma_hextet_has_no_colon(field: Seq<u8>)
    requires
        is_hextet(field),
    ensures
        is_free_of(field, COLON),
{
    assert forall|k: int| 0 <= k < field.len() implies field[k] != COLON by {
        assert(is_hex_digit(field[k]));
    }
}

/// An IPv4 literal holds a dot and no colon, so it is no hextet.
pub proof fn lemma_ipv4_has_no_colon(quad: Seq<u8>)
    requires
        is_ipv4_literal(quad),
    ensures
        is_free_of(quad, COLON),
        !is_hextet(quad),
{
    let fields = split(quad, DOT);
    let (a, b, c, d) = (fields[0], fields[1], fields[2], fields[3]);
    lemma_join_split(quad, DOT);
    assert(fields == seq![a, b, c, d]);
    lemma_dotted_quad_joins(a, b, c, d);
    assert(is_octet(a) && is_octet(b) && is_octet(c) && is_octet(d));
    let ab = a + seq![DOT] + b;
    let abc = ab + seq![DOT] + c;
    assert(quad == abc + seq![DOT] + d);
    assert forall|k: int| 0 <= k < quad.len() implies quad[k] != COLON by {
        if k < a.len() {
            assert(is_digit(a[k]));
        } else if k == a.len() {
        } else if k < ab.len() {
            assert(quad[k] == b[k - a.len() - 1]);
            assert(is_digit(b[k - a.len() - 1]));
        } else if k == ab.len() {
        } else if k < abc.len() {
            assert(quad[k] == c[k - ab.len() - 1]);
            assert(is_digit(c[k - ab.len() - 1]));
        } else if k == abc.len() {
        } else {
            assert(quad[k] == d[k - abc.len() - 1]);
            assert(is_digit(d[k - abc.len() - 1]));
        }
    }
    assert(quad[a.len() as int] == DOT);
    assert(!is_hex_digit(quad[a.len() as int]));
}

/// What is joined from fields, the first of which holds something, holds
/// something.
pub proof fn lemma_join_starts_with_first(fields: Seq<Seq<u8>>, sep: u8)
    requires
        fields.len() >= 1,
    ensures
        join(fields, sep).len() >= fields[0].len(),
{
}

/// A text is a list of `n` hextets joined by colons just when it counts as
/// `n` groups.
pub proof fn lemma_hextet_groups_joined(s: Seq<u8>, n: nat)
    ensures
        hextet_groups(s) == Some(n) <==> exists|groups: Seq<Seq<u8>>|
            groups.len() == n && #[trigger] is_part(s, groups, None),
{
    if hextet_groups(s) == Some(n) {
        if s.len() == 0 {
            let groups = Seq::<Seq<u8>>::empty();
            assert(s =~= join(groups, COLON));
            assert(is_part(s, groups, None));
        } else {
            let groups = split(s, COLON);
            lemma_join_split(s, COLON);
            assert(is_part(s, groups, None));
        }
    }
    if exists|groups: Seq<Seq<u8>>| groups.len() == n && #[trigger] is_part(s, groups, None) {
        let groups = choose|groups: Seq<Seq<u8>>|
            groups.len() == n && #[trigger] is_part(s, groups, None);
        if groups.len() > 0 {
            assert forall|i: int| 0 <= i < groups.len() implies is_free_of(
                #[trigger] groups[i],
                COLON,
            ) by {
                lemma_hextet_has_no_colon(groups[i]);
            }
            lemma_split_join(groups, COLON);
            assert(is_hextet(groups[0]));
            lemma_join_starts_with_first(groups, COLON);
        }
    }
}

/// A text is a list of hextets joined by colons, perhaps closed by an IPv4
/// literal, that writes `n` groups in all, just when it counts as `n` groups.
pub proof fn lemma_tail_groups_joined(s: Seq<u8>, n: nat)
    ensures
        tail_groups(s) == Some(n) <==> exists|groups: Seq<Seq<u8>>, quad: Option<Seq<u8>>|
            part_count(groups, quad) == n && #[trigger] is_part(s, groups, quad),
{
    if tail_groups(s) == Some(n) {
        if s.len() == 0 {
            let groups = Seq::<Seq<u8>>::empty();
            assert(s =~= join(groups, COLON));
            assert(is_part(s, groups, None));
        } else {
            let fields = split(s, COLON);
            lemma_join_split(s, COLON);
            if is_hextet(fields.last()) {
                assert(is_part(s, fields, None));
            } else {
                let groups = fields.drop_last();
                let quad = Some(fields.last());
                assert(part_fields(groups, quad) == fields);
                assert(all_hextets(groups)) by {
                    assert forall|i: int| 0 <= i < groups.len() implies is_hextet(
                        #[trigger] groups[i],
                    ) by {
                        assert(groups[i] == fields[i]);
                    }
                }
                assert(is_part(s, groups, quad));
            }
        }
    }
    if exists|groups: Seq<Seq<u8>>, quad: Option<Seq<u8>>|
        part_count(groups, quad) == n && #[trigger] is_part(s, groups, quad) {
        let (groups, quad) = choose|groups: Seq<Seq<u8>>, quad: Option<Seq<u8>>|
            part_count(groups, quad) == n && #[trigger] is_part(s, groups, quad);
        let fields = part_fields(groups, quad);
        if fields.len() > 0 {
            assert forall|i: int| 0 <= i < fields.len() implies is_free_of(
                #[trigger] fields[i],
                COLON,
            ) by {
                if i < groups.len() {
                    assert(fields[i] == groups[i]);
                    lemma_hextet_has_no_colon(groups[i]);
                } else {
                    lemma_ipv4_has_no_colon(quad->0);
                }
            }
            lemma_split_join(fields, COLON);
            lemma_join_starts_with_first(fields, COLON);
            assert(fields[0].len() > 0) by {
                if groups.len() > 0 {
                    assert(fields[0] == groups[0]);
                    assert(is_hextet(groups[0]));
                } else {
                    lemma_split_len(quad->0, DOT);
                    lemma_ipv4_has_no_colon(quad->0);
                    lemma_join_split(quad->0, DOT);
                    assert(is_octet(split(quad->0, DOT)[0]));
                    lemma_join_starts_with_first(split(quad->0, DOT), DOT);
                }
            }
            assert forall|i: int| 0 <= i < fields.len() - 1 implies is_hextet(
                #[trigger] fields[i],
            ) by {
                assert(fields[i] == groups[i]);
            }
            match quad {
                Some(q) => {
                    assert(fields.last() == q);
                    lemma_ipv4_has_no_colon(q);
                },
                None => {
                    assert(fields.last() == groups[groups.len() - 1]);
                },
            }
        }
    }
}

/// The forms of an IPv6 literal. It is eight groups joined by colons, the
/// last two of which may be written as an IPv4 literal; or it is hextets
/// joined by colons, then `::`, then hextets joined by colons that may close
/// with an IPv4 literal, seven groups at most in all.
pub proof fn lemma_ipv6_forms(s: Seq<u8>)
    ensures
        is_ipv6_literal(s) <==> (exists|groups: Seq<Seq<u8>>, quad: Option<Seq<u8>>|
            part_count(groups, quad) == 8 && #[trigger] is_part(s, groups, quad)) || (exists|
            head: Seq<Seq<u8>>,
            tail: Seq<u8>,
            groups: Seq<Seq<u8>>,
            quad: Option<Seq<u8>>,
        |
            head.len() + part_count(groups, quad) <= 7 && #[trigger] is_compressed(s, head, tail)
                && #[trigger] is_part(tail, groups, quad)),
{
    lemma_tail_groups_joined(s, 8);
    if exists|p: int| is_compressed_at(s, p) {
        let p = choose|p: int| is_compressed_at(s, p);
        let before = s.subrange(0, p);
        let after = s.subrange(p + 2, s.len() as int);
        let h = hextet_groups(before)->0;
        let t = tail_groups(after)->0;
        lemma_hextet_groups_joined(before, h);
        lemma_tail_groups_joined(after, t);
        let head = choose|head: Seq<Seq<u8>>|
            head.len() == h && #[trigger] is_part(before, head, None);
        let (groups, quad) = choose|groups: Seq<Seq<u8>>, quad: Option<Seq<u8>>|
            part_count(groups, quad) == t && #[trigger] is_part(after, groups, quad);
        assert(s == before + seq![COLON, COLON] + after);
        assert(is_compressed(s, head, after));
    }
    if exists|
        head: Seq<Seq<u8>>,
        tail: Seq<u8>,
        groups: Seq<Seq<u8>>,
        quad: Option<Seq<u8>>,
    |
        head.len() + part_count(groups, quad) <= 7 && #[trigger] is_compressed(s, head, tail)
            && #[trigger] is_part(tail, groups, quad) {
        let (head, tail, groups, quad) = choose|
            head: Seq<Seq<u8>>,
            tail: Seq<u8>,
            groups: Seq<Seq<u8>>,
            quad: Option<Seq<u8>>,
        |
            head.len() + part_count(groups, quad) <= 7 && #[trigger] is_compressed(s, head, tail)
                && #[trigger] is_part(tail, groups, quad);
        let before = join(head, COLON);
        let p = before.len() as int;
        assert(s.subrange(0, p) == before);
        assert(s.subrange(p + 2, s.len() as int) == tail);
        assert(is_part(before, head, None));
        lemma_hextet_groups_joined(before, head.len());
        lemma_tail_groups_joined(tail, part_count(groups, quad));
        assert(s[p] == COLON && s[p + 1] == COLON);
        assert(is_compressed_at(s, p));
    }
}

/// The group count of a list of hextets.
fn count_hextet_groups(s: &[u8]) -> (count: Option<usize>)
    ensures
        match count {
            Some(n) => hextet_groups(s@) == Some(n as nat),
            None => hextet_groups(s@) is None,
        },
{
    if s.len() == 0 {
        return Some(0);
    }
    let fields = split_fields(s, COLON);
    let mut i: usize = 0;
    while i < fields.len()
        invariant
            s@.len() > 0,
            i <= fields@.len(),
            field_views(fields@) == split(s@, COLON),
            forall|k: int| 0 <= k < i ==> is_hextet(#[trigger] split(s@, COLON)[k]),
        decreases fields@.len() - i,
    {
        assert(field_views(fields@)[i as int] == fields@[i as int]@);
        if !check_hextet(fields[i]) {
            assert(!is_hextet(split(s@, COLON)[i as int]));
            return None;
        }
        i += 1;
    }
    Some(fields.len())
}

/// The group count of a list of hextets that may close with a dotted quad.
fn count_tail_groups(s: &[u8]) -> (count: Option<usize>)
    ensures
        match count {
            Some(n) => tail_groups(s@) == Some(n as nat),
            None => tail_groups(s@) is None,
        },
{
    if s.len() == 0 {
        return Some(0);
    }
    let fields = split_fields(s, COLON);
    let last: usize = fields.len() - 1;
    let mut i: usize = 0;
    while i < last
        invariant
            s@.len() > 0,
            i <= last,
            last == fields@.len() - 1,
            field_views(fields@) == split(s@, COLON),
            forall|k: int| 0 <= k < i ==> is_hextet(#[trigger] split(s@, COLON)[k]),
        decreases last - i,
    {
        assert(field_views(fields@)[i as int] == fields@[i as int]@);
        if !check_hextet(fields[i]) {
            assert(!is_hextet(split(s@, COLON)[i as int]));
            return None;
        }
        i += 1;
    }
    assert(field_views(fields@)[last as int] == fields@[last as int]@);
    if check_hextet(fields[last]) {
        Some(fields.len())
    } else if check_ipv4(fields[last]) {
        proof {
            lemma_split_len(fields@[last as int]@, DOT);
        }
        Some(fields.len() + 1)
    } else {
        None
    }
}

/// Where the first `::` of `s` stands.
fn find_double_colon(s: &[u8]) -> (found: Option<usize>)
    ensures
        match found {
            Some(p) => is_first_double_colon(s@, p as int),
            None => forall|q: int| !double_colon_at(s@, q),
        },
{
    let n: usize = s.len();
    if n < 2 {
        return None;
    }
    let mut p: usize = 0;
    while p + 1 < n
        invariant
            n == s@.len(),
            p + 1 <= n,
            forall|q: int| 0 <= q < p ==> !double_colon_at(s@, q),
        decreases n - p,
    {
        if s[p] == COLON && s[p + 1] == COLON {
            return Some(p);
        }
        p += 1;
    }
    None
}

/// Whether `s` is an IPv6 literal.
pub fn check_ipv6(s: &[u8]) -> (ok: bool)
    ensures
        ok == is_ipv6_literal(s@),
{
    let n: usize = s.len();
    if let Some(groups) = count_tail_groups(s) {
        if groups == 8 {
            return true;
        }
    }
    match find_double_colon(s) {
        None => false,
        Some(p) => {
            let head = slice_subrange(s, 0, p);
            let tail = slice_subrange(s, p + 2, n);
            let ok = match (count_hextet_groups(head), count_tail_groups(tail)) {
                (Some(h), Some(t)) => h <= 7 && t <= 7 - h,
                _ => false,
            };
            proof {
                assert(ok == is_compressed_at(s@, p as int));
                if !ok {
                    assert forall|q: int| !is_compressed_at(s@, q) by {
                        if is_compressed_at(s@, q) {
                            lemma_compressed_at_first(s@, q);
                        }
                    }
                }
            }
            ok
        },
    }
}

/// Whether `s` is an address literal of either family.
pub fn check_ip(s: &[u8]) -> (ok: bool)
    ensures
        ok == is_ip_literal(s@),
{
    check_ipv4(s) || check_ipv6(s)
}

} // verus!
