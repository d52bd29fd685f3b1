//! Property names: `--X` names a property, `--__1X` the copy of it from an
//! earlier tick.

use crate::text;
use vstd::prelude::*;

verus! {

/// A name without its leading `--`.
pub open spec fn bare(name: Seq<char>) -> Seq<char> {
    if text::starts_with(name, "--"@) {
        text::dropped(name, 2)
    } else {
        name
    }
}

/// Does the name denote a buffer copy: `--__`, a digit, and the rest?
pub open spec fn buffer_copy(name: Seq<char>) -> bool {
    text::starts_with(name, "--__"@) && name.len() >= 5 && text::is_digit(name[4])
}

/// The name of the state variable that a property name refers to: without the
/// dashes, and without the buffer prefix of a copy.
pub open spec fn canonical(name: Seq<char>) -> Seq<char> {
    if buffer_copy(name) {
        text::dropped(name, 5)
    } else {
        bare(name)
    }
}

/// Does the name denote one of the three copies `--__0X`, `--__1X`, `--__2X`?
pub open spec fn tick_copy(name: Seq<char>) -> bool {
    text::starts_with(name, "--__"@) && name.len() >= 5 && (name[4] == '0' || name[4] == '1'
        || name[4] == '2')
}

/// The property that a variable reference keeps, if it is the property itself
/// or a copy of it from another tick.
pub open spec fn kept(name: Seq<char>) -> Option<Seq<char>> {
    if tick_copy(name) {
        Some(text::dropped(name, 5))
    } else if text::starts_with(name, "--"@) {
        Some(text::dropped(name, 2))
    } else {
        None
    }
}

/// Does a reference to `name` keep the value of `property`?
pub open spec fn keeps(name: Seq<char>, property: Seq<char>) -> bool {
    kept(name) == Some(bare(property))
}

/// The bare form of a name.
pub fn bare_name(name: &str) -> (r: &str)
    ensures
        r@ == bare(name@),
{
    if text::begins(name, "--") {
        proof {
            reveal_strlit("--");
        }
        name.substring_char(2, name.unicode_len())
    } else {
        name
    }
}

/// Does the name denote a buffer copy?
pub fn is_buffer_copy(name: &str) -> (r: bool)
    ensures
        r == buffer_copy(name@),
{
    if !text::begins(name, "--__") {
        return false;
    }
    let n: usize = name.unicode_len();
    if n < 5 {
        return false;
    }
    let c: char = name.get_char(4);
    c >= '0' && c <= '9'
}

/// The name of the state variable that a property name refers to.
pub fn to_bare_name(name: &str) -> (r: &str)
    ensures
        r@ == canonical(name@),
{
    if is_buffer_copy(name) {
        name.substring_char(5, name.unicode_len())
    } else {
        bare_name(name)
    }
}

/// Does a reference to `name` keep the value of `property`?
pub fn keeps_property(name: &str, property: &str) -> (r: bool)
    ensures
        r == keeps(name@, property@),
{
    proof {
        reveal_strlit("--__");
        reveal_strlit("--");
    }
    let n: usize = name.unicode_len();
    if n >= 5 && text::begins(name, "--__") {
        let mark: char = name.get_char(4);
        if mark == '0' || mark == '1' || mark == '2' {
            return text::same(name.substring_char(5, n), bare_name(property));
        }
    }
    if text::begins(name, "--") {
        text::same(name.substring_char(2, n), bare_name(property))
    } else {
        false
    }
}

} // verus!
