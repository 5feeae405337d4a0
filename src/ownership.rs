//! Moves, copies and borrows: functions whose results show what ownership
//! and borrowing leave unchanged.
use vstd::prelude::*;

verus! {

/// Sets the third element of a copy of `x` to 12 and returns it; the caller's
/// array is passed by value and stays as it was.
pub fn plus_one(x: [i32; 5]) -> (r: i32)
    ensures
        r == 12,
{
    let mut x = x;
    x[2] = 12;
    x[2]
}

/// Takes ownership of `name` and hands it back with " Jr." appended.
pub fn add_suffix(name: String) -> (r: String)
    ensures
        r@ == name@ + " Jr."@,
{
    let mut name = name;
    name.append(" Jr.");
    name
}

/// Borrows `v` immutably and does nothing with it.
pub fn borrow(v: &Vec<i32>) {
}

/// Creates a string and borrows it, then moves it out of its first owner once the
/// borrow is no longer used; the new owner frees it at the end of the function.
pub fn outlive_references() {
    let s = String::from_str("Hello world");
    let s_ref = &s;
    let owner = s;
}

/// A reference to the first string of a non-empty list.
pub fn first(strings: &Vec<String>) -> (r: &String)
    requires
        strings.len() > 0,
    ensures
        r == strings[0],
{
    &strings[0]
}

/// `c` in upper case if it is an ASCII lower-case letter, else `c` itself.
pub open spec fn ascii_upper(c: char) -> char {
    if 'a' <= c && c <= 'z' {
        ((c as u32) - 32) as char
    } else {
        c
    }
}

/// Upper-cases the first character of a non-empty list when it is an ASCII
/// lower-case letter; leaves every other character as it is.
pub fn ascii_capitalize(v: &mut Vec<char>)
    requires
        old(v).len() > 0,
    ensures
        final(v)@ == old(v)@.update(0, ascii_upper(old(v)@[0])),
{
    let c = v[0];
    if 'a' <= c && c <= 'z' {
        let up = ((c as u8) - 32) as char;
        v.set(0, up);
    } else {
        assert(v@ =~= old(v)@.update(0, ascii_upper(old(v)@[0])));
    }
}

} // verus!
