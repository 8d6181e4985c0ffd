//! The name of the file that holds the entries of a path.

use vstd::prelude::*;
use vstd::utf8::*;

use crate::text::same_text;

verus! {

/// The number of files that paths are spread over.
pub const HASH_BINS: i32 = 256;

/// The value at `p` of the polynomial with the coefficients `xs`, highest first.
pub open spec fn polynomial(p: int, xs: Seq<int>) -> int
    decreases xs.len(),
{
    if xs.len() == 0 {
        0
    } else {
        polynomial(p, xs.drop_last()) * p + xs.last()
    }
}

/// Polynomial hash: the value of the polynomial modulo the number of bins.
pub open spec fn poly(p: int, xs: Seq<int>) -> int {
    polynomial(p, xs) % 256
}

/// The hash of one path component: over its UTF-8 bytes.
pub open spec fn component_number(component: Seq<char>) -> int {
    poly(19, encode_utf8(component).map_values(|byte: u8| byte as int))
}

/// The hash of a path: over the hashes of its components.
pub open spec fn path_number(path: Seq<Seq<char>>) -> int {
    poly(199, path.map_values(|component: Seq<char>| component_number(component)))
}

/// A hexadecimal digit.
pub open spec fn hex_digit(digit: int) -> char {
    "0123456789abcdef"@[digit]
}

/// A number below 256 as two lower case hexadecimal digits.
pub open spec fn hex_byte(number: int) -> Seq<char> {
    seq![hex_digit(number / 16), hex_digit(number % 16)]
}

/// The path that the collection's own information is kept under.
pub open spec fn info_path() -> Seq<Seq<char>> {
    seq!["info"@]
}

/// The file name of a path.
pub open spec fn path_hash(path: Seq<Seq<char>>) -> Seq<char> {
    if path == info_path() {
        "info"@
    } else {
        hex_byte(path_number(path))
    }
}

/// Every file name that a path can have.
pub open spec fn hash_names() -> Seq<Seq<char>> {
    Seq::new(256, |i: int| hex_byte(i)).push("info"@)
}

proof fn poly_range(p: int, xs: Seq<int>)
    ensures
        0 <= poly(p, xs) < 256,
{
}

/// Whether `path` is the one that the collection's own information is kept under.
pub fn is_info_path(path: &Vec<String>) -> (r: bool)
    ensures
        r == (path.deep_view() == info_path()),
{
    if path.len() != 1 {
        assert(path.deep_view().len() != info_path().len());
        return false;
    }
    let r = same_text(path[0].as_str(), "info");
    assert(path.deep_view()[0] == path[0]@);
    if r {
        assert(path.deep_view() =~= info_path());
    } else {
        assert(info_path()[0] == "info"@);
    }
    r
}

/// Taking the remainder at each step gives the remainder of the whole.
proof fn remainder_by_steps(value: int, p: int, x: int)
    ensures
        ((value % 256) * p + x) % 256 == (value * p + x) % 256,
{
    let q = value / 256;
    let r = value % 256;
    assert(value * p + x == (r * p + x) + 256 * (q * p)) by (nonlinear_arith)
        requires
            value == 256 * q + r,
    ;
    vstd::arithmetic::div_mod::lemma_mod_multiples_vanish(q * p, r * p + x, 256);
}

/// The polynomial hash of `xs`.
fn poly_hash(p: i32, xs: &Vec<i32>) -> (r: i32)
    requires
        0 <= p,
        forall|i: int|
            0 <= i < xs@.len() ==> 0 <= #[trigger] xs@[i] && 255 * p + xs@[i] <= i32::MAX,
    ensures
        r == poly(p as int, xs@.map_values(|x: i32| x as int)),
        0 <= r < HASH_BINS,
{
    let ghost all = xs@.map_values(|x: i32| x as int);
    let mut hash: i32 = 0;
    let mut i: usize = 0;
    while i < xs.len()
        invariant
            i <= xs@.len(),
            0 <= p,
            0 <= hash < 256,
            all == xs@.map_values(|x: i32| x as int),
            hash == poly(p as int, all.take(i as int)),
            forall|j: int|
                0 <= j < xs@.len() ==> 0 <= #[trigger] xs@[j] && 255 * p + xs@[j] <= i32::MAX,
        decreases xs@.len() - i,
    {
        assert(0 <= hash * p <= 255 * p) by (nonlinear_arith)
            requires
                0 <= hash < 256,
                0 <= p,
        ;
        proof {
            assert(all.take(i + 1).drop_last() == all.take(i as int));
            assert(all.take(i + 1).last() == xs@[i as int]);
            remainder_by_steps(
                polynomial(p as int, all.take(i as int)),
                p as int,
                xs@[i as int] as int,
            );
        }
        assert(0 <= xs@[i as int] && 255 * p + xs@[i as int] <= i32::MAX);
        hash = (hash * p + xs[i]) % HASH_BINS;
        i = i + 1;
    }
    assert(all.take(all.len() as int) == all);
    hash
}

/// The hash of one path component.
fn component_hash(component: &String) -> (r: i32)
    ensures
        r == component_number(component@),
        0 <= r < HASH_BINS,
{
    let bytes = component.as_str().as_bytes();
    let mut xs: Vec<i32> = Vec::new();
    let mut i: usize = 0;
    while i < bytes.len()
        invariant
            i <= bytes@.len(),
            xs@.len() == i,
            forall|j: int| 0 <= j < i ==> #[trigger] xs@[j] == bytes@[j],
        decreases bytes@.len() - i,
    {
        xs.push(bytes[i] as i32);
        i = i + 1;
    }
    assert(xs@.map_values(|x: i32| x as int) =~= bytes@.map_values(|byte: u8| byte as int));
    poly_hash(19, &xs)
}

/// Two lower case hexadecimal digits.
fn hex_name(number: i32) -> (r: String)
    requires
        0 <= number < HASH_BINS,
    ensures
        r@ == hex_byte(number as int),
{
    proof {
        reveal_strlit("0123456789abcdef");
    }
    let mut r = String::new();
    r.push("0123456789abcdef".get_char((number / 16) as usize));
    r.push("0123456789abcdef".get_char((number % 16) as usize));
    assert(r@ =~= hex_byte(number as int));
    r
}

/// The name of the file that holds the entries of `path`.
///
/// The path `["info"]` has a file of its own; every other path is hashed into one of 256 files.
pub fn path_to_hash(path: Vec<String>) -> (r: String)
    ensures
        r@ == path_hash(path.deep_view()),
{
    if is_info_path(&path) {
        return "info".to_owned();
    }
    let mut string_hashes: Vec<i32> = Vec::new();
    let mut i: usize = 0;
    while i < path.len()
        invariant
            i <= path@.len(),
            string_hashes@.len() == i,
            forall|j: int| 0 <= j < i ==> 0 <= #[trigger] string_hashes@[j] < HASH_BINS,
            forall|j: int|
                0 <= j < i ==> #[trigger] string_hashes@[j] == component_number(path@[j]@),
        decreases path@.len() - i,
    {
        string_hashes.push(component_hash(&path[i]));
        i = i + 1;
    }
    assert(string_hashes@.map_values(|x: i32| x as int) =~= path.deep_view().map_values(
        |component: Seq<char>| component_number(component),
    ));
    hex_name(poly_hash(199, &string_hashes))
}

/// Every file name that [`path_to_hash`] can give.
pub fn all_hashes() -> (r: Vec<String>)
    ensures
        r.deep_view() == hash_names(),
{
    let mut r: Vec<String> = Vec::new();
    let mut number: i32 = 0;
    while number < HASH_BINS
        invariant
            0 <= number <= HASH_BINS,
            r@.len() == number,
            forall|j: int| 0 <= j < number ==> #[trigger] r@[j]@ == hex_byte(j),
        decreases HASH_BINS - number,
    {
        r.push(hex_name(number));
        number = number + 1;
    }
    r.push("info".to_owned());
    assert(r.deep_view() =~= hash_names());
    r
}

/// The file of every path is among [`all_hashes`].
pub proof fn path_hash_is_listed(path: Seq<Seq<char>>)
    ensures
        hash_names().contains(path_hash(path)),
{
    if path == info_path() {
        assert(hash_names()[256] == path_hash(path));
    } else {
        let number = path_number(path);
        poly_range(199, path.map_values(|component: Seq<char>| component_number(component)));
        assert(hash_names()[number] == path_hash(path));
    }
}

/// Only the path `["info"]` itself lives in the file `info`.
pub proof fn only_the_info_path_is_exempt(path: Seq<Seq<char>>)
    ensures
        path_hash(path) == "info"@ <==> path == info_path(),
{
    reveal_strlit("info");
    if path != info_path() {
        assert(path_hash(path).len() == 2);
    }
}

/// No file name is listed twice.
pub proof fn hash_names_are_distinct()
    ensures
        hash_names().no_duplicates(),
{
    reveal_strlit("0123456789abcdef");
    reveal_strlit("info");
    let digits = "0123456789abcdef"@;
    assert forall|i: int, j: int| 0 <= i < 16 && 0 <= j < 16 && i != j implies digits[i]
        != digits[j] by {}
    let names = hash_names();
    assert forall|i: int, j: int| 0 <= i < names.len() && 0 <= j < names.len() && i != j implies names[i]
        != names[j] by {
        if i < 256 && j < 256 {
            assert(i / 16 != j / 16 || i % 16 != j % 16);
            assert(names[i][0] == digits[i / 16] && names[i][1] == digits[i % 16]);
            assert(names[j][0] == digits[j / 16] && names[j][1] == digits[j % 16]);
        } else {
            assert(hex_byte(if i < 256 { i } else { j }).len() == 2);
        }
    }
}

/// The polynomial hash goes over the numbers from the first to the last, and multiplies what it has
/// so far by the base before it adds the next number, modulo 256.
proof fn poly_by_folding(p: int, xs: Seq<int>)
    ensures
        poly(p, xs) == xs.fold_left(0int, |hash: int, x: int| (hash * p + x) % 256),
    decreases xs.len(),
{
    reveal(Seq::fold_left);
    if xs.len() > 0 {
        poly_by_folding(p, xs.drop_last());
        remainder_by_steps(polynomial(p, xs.drop_last()), p, xs.last());
    }
}

/// The file of a path but `["info"]` is named by two lower case hexadecimal digits: over the bytes
/// of each component, and then over the components, the hash is multiplied by 19 and by 199 before
/// the next number is added, modulo 256.
pub proof fn files_are_named_by_hashing(path: Seq<Seq<char>>)
    requires
        !(path.len() == 1 && path[0] == "info"@),
    ensures
        ({
            let number = path.map_values(
                |component: Seq<char>|
                    encode_utf8(component).map_values(|byte: u8| byte as int).fold_left(
                        0int,
                        |hash: int, x: int| (hash * 19 + x) % 256,
                    ),
            ).fold_left(0int, |hash: int, x: int| (hash * 199 + x) % 256);
            &&& 0 <= number < 256
            &&& path_hash(path).len() == 2
            &&& path_hash(path)[0] == "0123456789abcdef"@[number / 16]
            &&& path_hash(path)[1] == "0123456789abcdef"@[number % 16]
        }),
{
    if path == info_path() {
        assert(path.len() == 1 && path[0] == "info"@);
    }
    let each = |component: Seq<char>|
        encode_utf8(component).map_values(|byte: u8| byte as int).fold_left(
            0int,
            |hash: int, x: int| (hash * 19 + x) % 256,
        );
    let numbers = path.map_values(|component: Seq<char>| component_number(component));
    assert forall|i: int| 0 <= i < path.len() implies #[trigger] numbers[i] == each(path[i]) by {
        poly_by_folding(19, encode_utf8(path[i]).map_values(|byte: u8| byte as int));
    }
    assert(numbers =~= path.map_values(each));
    poly_by_folding(199, numbers);
    poly_range(199, numbers);
}

/// The file of the path `["info"]` is named `info`.
pub proof fn the_info_file_is_named_info(path: Seq<Seq<char>>)
    requires
        path.len() == 1,
        path[0] == "info"@,
    ensures
        path_hash(path) == "info"@,
{
    assert(path =~= info_path());
}

/// The names that a path can have are the two-digit hexadecimal numbers, and `info`.
pub proof fn the_names_are_the_numbers_and_info(i: int)
    ensures
        hash_names().len() == 257,
        hash_names()[256] == "info"@,
        0 <= i < 256 ==> hash_names()[i].len() == 2 && hash_names()[i][0]
            == "0123456789abcdef"@[i / 16] && hash_names()[i][1] == "0123456789abcdef"@[i % 16],
{
}

} // verus!
