//! Collecting what an update needs: the address from the command line, and
//! the other fields from lines of the form `key=value`.

use crate::address::{address_of, Ipv4Address};
use crate::information::Information;
use crate::text::{chars_of, find_char, first_index, lemma_first_index_found};
use vstd::prelude::*;
use vstd::string::{StrSliceExecFns, StringExecFns};

verus! {

/// The fields of an update that a line of input can set.
#[derive(PartialEq, Eq, Debug, Clone, Copy, Hash, Structural)]
pub enum KEY {
    USER,
    PASS,
    HOST,
    DOM,
}

impl KEY {
    /// The protocol's name for this field, as `to_string` gives it.
    pub open spec fn hint(self) -> Seq<char> {
        match self {
            KEY::USER => "USERID"@,
            KEY::PASS => "PASSWORD"@,
            KEY::HOST => "HOSTNAME"@,
            KEY::DOM => "DOMNAME"@,
        }
    }

    /// The protocol's name for this field.
    pub fn to_string(&self) -> (s: String)
        ensures
            s@ == self.hint(),
    {
        match self {
            KEY::USER => String::from_str("USERID"),
            KEY::PASS => String::from_str("PASSWORD"),
            KEY::HOST => String::from_str("HOSTNAME"),
            KEY::DOM => String::from_str("DOMNAME"),
        }
    }
}

/// The field that a line sets, told by how the line begins.
pub open spec fn line_key(line: Seq<char>) -> Option<KEY> {
    if "user"@.is_prefix_of(line) {
        Some(KEY::USER)
    } else if "pass"@.is_prefix_of(line) {
        Some(KEY::PASS)
    } else if "host"@.is_prefix_of(line) {
        Some(KEY::HOST)
    } else if "dom"@.is_prefix_of(line) {
        Some(KEY::DOM)
    } else {
        None
    }
}

/// What follows the first `=` of a line.
pub open spec fn line_value(line: Seq<char>) -> Seq<char> {
    line.skip(first_index(line, '=') + 1)
}

/// What a line of input sets: the field that its beginning tells and the
/// value behind its first `=`. `None` for a line without `=` and for one
/// that begins with none of `user`, `pass`, `host` and `dom`.
pub open spec fn parsed_line(line: Seq<char>) -> Option<(KEY, Seq<char>)> {
    if !line.contains('=') {
        None
    } else {
        match line_key(line) {
            Some(key) => Some((key, line_value(line))),
            None => None,
        }
    }
}

/// Does `text` begin with `prefix`?
fn begins_with(text: &Vec<char>, prefix: &str) -> (b: bool)
    ensures
        b == prefix@.is_prefix_of(text@),
{
    let p = chars_of(prefix);
    if p.len() > text.len() {
        return false;
    }
    let mut i: usize = 0;
    while i < p.len()
        invariant
            p@ == prefix@,
            i <= p@.len() <= text@.len(),
            forall|j: int| 0 <= j < i ==> text@[j] == p@[j],
        decreases p@.len() - i,
    {
        if text[i] != p[i] {
            assert(text@.subrange(0, p@.len() as int)[i as int] != p@[i as int]);
            return false;
        }
        i += 1;
    }
    assert(p@ =~= text@.subrange(0, p@.len() as int));
    true
}

/// Reads one line of input as a field and its value.
pub fn parse_line(line: &str) -> (r: Option<(KEY, String)>)
    ensures
        match r {
            Some((key, value)) => parsed_line(line@) == Some((key, value@)),
            None => parsed_line(line@) is None,
        },
{
    let text = chars_of(line);
    let index = find_char(&text, text.len(), '=');
    proof {
        assert(text@.take(text@.len() as int) =~= text@);
        lemma_first_index_found(line@, '=');
    }
    if index == text.len() {
        assert(!line@.contains('='));
        return None;
    }
    assert(line@.contains('=')) by {
        assert(line@[index as int] == '=');
    }
    let key = if begins_with(&text, "user") {
        KEY::USER
    } else if begins_with(&text, "pass") {
        KEY::PASS
    } else if begins_with(&text, "host") {
        KEY::HOST
    } else if begins_with(&text, "dom") {
        KEY::DOM
    } else {
        return None;
    };
    let value = String::from_str(line.substring_char(index + 1, text.len()));
    Some((key, value))
}

/// The address that a command line asks for: that of its one free
/// argument, unless help is asked for.
pub open spec fn requested(help: bool, free: Seq<String>) -> Option<Ipv4Address> {
    if help || free.len() != 1 {
        None
    } else {
        address_of(free[0]@)
    }
}

/// Tells which address to set from what stands on the command line:
/// whether help is asked for, and the free arguments. `None` means that
/// the usage is to be shown.
pub fn requested_address(help: bool, free: &[String]) -> (target: Option<Ipv4Address>)
    ensures
        target == requested(help, free@),
{
    if help || free.len() != 1 {
        return None;
    }
    match Ipv4Address::parse(free[0].as_str()) {
        Ok(addr) => Some(addr),
        Err(_) => None,
    }
}

impl Information {
    /// The text of the field that `key` names.
    pub open spec fn field(&self, key: KEY) -> Seq<char> {
        match key {
            KEY::USER => self.user@,
            KEY::PASS => self.pass@,
            KEY::HOST => self.host@,
            KEY::DOM => self.dom@,
        }
    }

    /// Do `self` and `other` hold the same, but for the field that `key` names?
    pub open spec fn agrees_but(&self, other: &Information, key: KEY) -> bool {
        &&& key != KEY::USER ==> self.user@ == other.user@
        &&& key != KEY::PASS ==> self.pass@ == other.pass@
        &&& key != KEY::HOST ==> self.host@ == other.host@
        &&& key != KEY::DOM ==> self.dom@ == other.dom@
        &&& self.ipaddr == other.ipaddr
    }
}

impl std::ops::Index<KEY> for Information {
    type Output = String;

    /// The field that `key` names.
    fn index(&self, key: KEY) -> (value: &String)
        ensures
            value@ == self.field(key),
    {
        match key {
            KEY::USER => &self.user,
            KEY::PASS => &self.pass,
            KEY::HOST => &self.host,
            KEY::DOM => &self.dom,
        }
    }
}

impl vstd::std_specs::core::IndexSpecImpl<KEY> for Information {
    /// Every key names a field.
    open spec fn index_req(&self, index: &KEY) -> bool {
        true
    }
}

impl std::ops::IndexMut<KEY> for Information {
    /// The field that `key` names, to be changed in place. What is put
    /// there is that field afterwards, and nothing else changes.
    fn index_mut(&mut self, key: KEY) -> (value: &mut String)
        ensures
            value@ == old(self).field(key),
            final(self).field(key) == final(value)@,
            final(self).agrees_but(old(self), key),
    {
        match key {
            KEY::USER => &mut self.user,
            KEY::PASS => &mut self.pass,
            KEY::HOST => &mut self.host,
            KEY::DOM => &mut self.dom,
        }
    }
}

} // verus!
