//! Worked examples on strings and vectors: the fixed versions of small
//! programs the ownership discipline rejects, each verified against an
//! exact contract.

use vstd::prelude::*;

use vstd::string::StringExecFns;

verus! {

/// The byte length of a string value.
pub open spec fn str_byte_len(s: String) -> nat {
    vstd::utf8::encode_utf8(s@).len()
}

/// Appends a fixed suffix, taking ownership of its argument; the caller's
/// original name is invalidated by the move.
pub fn add_ten(number: String) -> (r: String)
    ensures
        r@ == number@ + " plus ten"@,
{
    let mut number = number;
    number.append(" plus ten");
    number
}

/// Hand ownership of a fresh string out of the function.
pub fn solution1_1() -> (r: String)
    ensures
        r@ == "Hello world"@,
{
    String::from_str("Hello world")
}

/// Hand out a string literal, which lives as long as the program.
pub fn solution1_2() -> (r: &'static str)
    ensures
        r@ == "Hello world"@,
{
    "Hello world"
}

/// Defer the ownership question to runtime with a reference-counted
/// pointer: every holder shares the one heap string.
pub fn solution1_3() -> (r: std::rc::Rc<String>)
    ensures
        (*r)@ == "Hello world"@,
{
    let s = std::rc::Rc::new(String::from_str("Hello world"));
    std::rc::Rc::clone(&s)
}

/// Fill a slot the caller owns instead of returning a reference.
pub fn solution1_4(output: &mut String)
    ensures
        final(output)@ == "Hello world"@,
{
    *output = String::from_str("Hello world");
}

/// A borrowed element of a borrowed vector can still be read: copying a
/// plain integer out needs no ownership at all.
pub fn safe_copy() -> (r: i32)
    ensures
        r == 0,
{
    let mut v: Vec<i32> = Vec::new();
    v.push(0);
    v.push(1);
    v.push(2);
    let n_ref: &i32 = &v[0];
    *n_ref
}

/// Clone the element to take ownership while the vector keeps its own.
pub fn solution4_2() -> (r: String)
    ensures
        r@ == "Hello world"@,
{
    let mut v: Vec<String> = Vec::new();
    v.push(String::from_str("Hello world"));
    let first: &String = &v[0];
    first.clone()
}

/// Remove the element to transfer its ownership out of the vector.
pub fn solution4_3() -> (r: String)
    ensures
        r@ == "Hello world"@,
{
    let mut v: Vec<String> = Vec::new();
    v.push(String::from_str("Hello world"));
    v.remove(0)
}

/// Borrow a tuple's first field.  The analysis sees only that some part
/// of the tuple is borrowed, so the whole tuple is one path afterwards.
pub fn get_first(name: &(String, String)) -> (r: &String)
    ensures
        *r == name.0,
{
    &name.0
}

/// The character sequences of a list of strings.
pub open spec fn views_of(items: Seq<String>) -> Seq<Seq<char>> {
    items.map_values(|s: String| s@)
}

/// The given words joined by single spaces.
pub open spec fn join_spaces(items: Seq<Seq<char>>) -> Seq<char>
    decreases items.len(),
{
    if items.len() == 0 {
        Seq::empty()
    } else if items.len() == 1 {
        items[0]
    } else {
        join_spaces(items.drop_last()) + seq![' '] + items.last()
    }
}

/// Join the items with single spaces, borrowing the vector only to read.
pub fn join_with_spaces(items: &Vec<String>) -> (r: String)
    ensures
        r@ == join_spaces(views_of(items@)),
{
    let mut r = String::new();
    let n = items.len();
    let mut i: usize = 0;
    let ghost sv = views_of(items@);
    proof {
        assert(sv.take(0) =~= Seq::<Seq<char>>::empty());
    }
    while i < n
        invariant
            i <= n,
            n == items@.len(),
            sv == views_of(items@),
            r@ == join_spaces(sv.take(i as int)),
        decreases n - i,
    {
        proof {
            reveal_strlit(" ");
            assert(" "@ =~= seq![' ']);
            assert(sv.take(i + 1).drop_last() =~= sv.take(i as int));
            assert(sv.take(i + 1).last() == items@[i as int]@);
        }
        if i > 0 {
            r.append(" ");
        }
        let item: &String = &items[i];
        r.append(item.as_str());
        i += 1;
    }
    proof {
        assert(sv.take(n as int) =~= sv);
    }
    r
}

/// Join a borrowed list of name parts into one owned string; the list
/// itself is only read.
pub fn stringify_name_with_title(name: &Vec<String>) -> (r: String)
    ensures
        r@ == join_spaces(views_of(name@)),
{
    join_with_spaces(name)
}

/// Taking the vector mutably compiles, but surprises the caller: the
/// suffix lands in the caller's data.
pub fn faux_solution2_1(name: &mut Vec<String>) -> (r: String)
    ensures
        views_of(final(name)@) == views_of(old(name)@).push("Esq."@),
        r@ == join_spaces(views_of(final(name)@)),
{
    name.push(String::from_str("Esq."));
    proof {
        assert(views_of(name@) =~= views_of(old(name)@).push("Esq."@));
    }
    join_with_spaces(name)
}

/// Taking the vector by value compiles, but consumes it: the caller can
/// never use the name again.
pub fn faux_solution2_2(name: Vec<String>) -> (r: String)
    ensures
        r@ == join_spaces(views_of(name@).push("Esq."@)),
{
    let ghost orig = name@;
    let mut name = name;
    name.push(String::from_str("Esq."));
    proof {
        assert(views_of(name@) =~= views_of(orig).push("Esq."@));
    }
    join_with_spaces(&name)
}

/// Clone the borrowed vector and extend the clone: the caller's data is
/// untouched.
pub fn solution2_1(name: &Vec<String>) -> (r: String)
    ensures
        r@ == join_spaces(views_of(name@).push("Esq."@)),
{
    let name_clone = name.clone();
    proof {
        assert forall|i: int| 0 <= i < name@.len() implies name_clone@[i] == name@[i] by {
            assert(vstd::pervasive::cloned::<String>(name@[i], name_clone@[i]));
        }
        assert(name_clone@ =~= name@);
    }
    let mut name_clone = name_clone;
    name_clone.push(String::from_str("Esq."));
    proof {
        assert(views_of(name_clone@) =~= views_of(name@).push("Esq."@));
    }
    join_with_spaces(&name_clone)
}

/// Join first, then append the suffix to the owned result: no clone of
/// the vector is needed.
pub fn solution2_2(name: &Vec<String>) -> (r: String)
    ensures
        r@ == join_spaces(views_of(name@)) + " Esq."@,
{
    let mut full = join_with_spaces(name);
    full.append(" Esq.");
    full
}

/// Strings whose byte length exceeds `l`.
pub open spec fn longer_than(l: nat) -> spec_fn(String) -> bool {
    |x: String| str_byte_len(x) > l
}

/// The largest byte length among the items; zero for an empty list.
pub open spec fn max_byte_len(items: Seq<String>) -> nat
    decreases items.len(),
{
    if items.len() == 0 {
        0
    } else {
        let rest = max_byte_len(items.drop_last());
        if str_byte_len(items.last()) > rest {
            str_byte_len(items.last())
        } else {
            rest
        }
    }
}

/// The index of a longest item; its byte length is the maximum.
fn largest_index(items: &Vec<String>) -> (r: usize)
    requires
        items@.len() > 0,
    ensures
        r < items@.len(),
        str_byte_len(items@[r as int]) == max_byte_len(items@),
{
    let mut best: usize = 0;
    let mut largest_len: usize = items[0].as_str().as_bytes().len();
    let n = items.len();
    let mut i: usize = 1;
    proof {
        assert(max_byte_len(Seq::<String>::empty()) == 0);
        assert(items@.take(1).drop_last() =~= Seq::<String>::empty());
        assert(items@.take(1).last() == items@[0]);
    }
    while i < n
        invariant
            1 <= i <= n,
            n == items@.len(),
            best < i,
            largest_len as nat == str_byte_len(items@[best as int]),
            largest_len as nat == max_byte_len(items@.take(i as int)),
        decreases n - i,
    {
        proof {
            assert(items@.take(i + 1).drop_last() =~= items@.take(i as int));
            assert(items@.take(i + 1).last() == items@[i as int]);
        }
        let item: &String = &items[i];
        let li = item.as_str().as_bytes().len();
        if li > largest_len {
            largest_len = li;
            best = i;
        }
        i += 1;
    }
    proof {
        assert(items@.take(n as int) =~= items@);
    }
    best
}

/// Push every source string longer than the longest destination string.
///
/// Only the length of the longest element is noted before pushing, so no
/// borrow of an element is alive while the vector grows.
pub fn solution3(dst: &mut Vec<String>, src: &[String])
    requires
        old(dst)@.len() > 0,
    ensures
        final(dst)@ == old(dst)@ + src@.filter(longer_than(max_byte_len(old(dst)@))),
{
    let ghost dst0 = dst@;
    let ghost l = max_byte_len(dst0);
    let ghost pred = longer_than(l);
    let largest_at = largest_index(dst);
    let largest_len = dst[largest_at].as_str().as_bytes().len();
    let m = src.len();
    let mut j: usize = 0;
    proof {
        reveal(Seq::filter);
        assert(src@.take(0) =~= Seq::<String>::empty());
        assert(dst0 + src@.take(0).filter(pred) =~= dst0);
    }
    while j < m
        invariant
            j <= m,
            m == src@.len(),
            largest_len as nat == l,
            pred == longer_than(l),
            dst@ == dst0 + src@.take(j as int).filter(pred),
        decreases m - j,
    {
        proof {
            assert(src@.take(j + 1) =~= src@.take(j as int).push(src@[j as int]));
            Seq::lemma_filter_push(src@.take(j as int), src@[j as int], pred);
        }
        let item: &String = &src[j];
        if item.as_str().as_bytes().len() > largest_len {
            dst.push(item.clone());
        }
        j += 1;
    }
    proof {
        assert(src@.take(m as int) =~= src@);
    }
}

/// The same effect as `solution3`, reached by cloning the largest string
/// first: its clone borrows nothing, at the cost of copying the data.
pub fn semi_solution3_1(dst: &mut Vec<String>, src: &[String])
    requires
        old(dst)@.len() > 0,
    ensures
        final(dst)@ == old(dst)@ + src@.filter(longer_than(max_byte_len(old(dst)@))),
{
    let ghost dst0 = dst@;
    let ghost l = max_byte_len(dst0);
    let ghost pred = longer_than(l);
    let largest_at = largest_index(dst);
    let largest: String = dst[largest_at].clone();
    let m = src.len();
    let mut j: usize = 0;
    proof {
        reveal(Seq::filter);
        assert(src@.take(0) =~= Seq::<String>::empty());
        assert(dst0 + src@.take(0).filter(pred) =~= dst0);
    }
    while j < m
        invariant
            j <= m,
            m == src@.len(),
            str_byte_len(largest) == l,
            pred == longer_than(l),
            dst@ == dst0 + src@.take(j as int).filter(pred),
        decreases m - j,
    {
        proof {
            assert(src@.take(j + 1) =~= src@.take(j as int).push(src@[j as int]));
            Seq::lemma_filter_push(src@.take(j as int), src@[j as int], pred);
        }
        let item: &String = &src[j];
        if item.as_str().as_bytes().len() > largest.as_str().as_bytes().len() {
            dst.push(item.clone());
        }
        j += 1;
    }
    proof {
        assert(src@.take(m as int) =~= src@);
    }
}

/// The same effect once more, reached by collecting the qualifying
/// strings into a fresh vector first and appending it, so the borrow of
/// the largest element is over before the destination grows.
pub fn semi_solution3_2(dst: &mut Vec<String>, src: &[String])
    requires
        old(dst)@.len() > 0,
    ensures
        final(dst)@ == old(dst)@ + src@.filter(longer_than(max_byte_len(old(dst)@))),
{
    let ghost dst0 = dst@;
    let ghost l = max_byte_len(dst0);
    let ghost pred = longer_than(l);
    let largest_at = largest_index(dst);
    let largest_len = dst[largest_at].as_str().as_bytes().len();
    let mut to_add: Vec<String> = Vec::new();
    let m = src.len();
    let mut j: usize = 0;
    proof {
        reveal(Seq::filter);
        assert(src@.take(0) =~= Seq::<String>::empty());
        assert(src@.take(0).filter(pred) =~= Seq::<String>::empty());
    }
    while j < m
        invariant
            j <= m,
            m == src@.len(),
            dst@ == dst0,
            largest_len as nat == l,
            pred == longer_than(l),
            to_add@ == src@.take(j as int).filter(pred),
        decreases m - j,
    {
        proof {
            assert(src@.take(j + 1) =~= src@.take(j as int).push(src@[j as int]));
            Seq::lemma_filter_push(src@.take(j as int), src@[j as int], pred);
        }
        let item: &String = &src[j];
        if item.as_str().as_bytes().len() > largest_len {
            to_add.push(item.clone());
        }
        j += 1;
    }
    proof {
        assert(src@.take(m as int) =~= src@);
    }
    dst.append(&mut to_add);
}

} // verus!
