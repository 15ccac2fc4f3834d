//! The decoder's names for its operation codes, as a table that a
//! vocabulary file is written and read with.

use vstd::prelude::*;
use crate::decoder::{name_of_opcode, opcode_name};
use crate::lines::{is_line, CARRIAGE_RETURN, NEWLINE};

verus! {

/// Whether the names of a table can be told apart and written as lines.
pub open spec fn names_wf(names: Seq<Option<Seq<u8>>>) -> bool {
    &&& names.len() == 65536
    &&& forall|c: int| 0 <= c < names.len() && (#[trigger] names[c]) is Some ==> is_line(names[c]->0)
    &&& forall|a: int, b: int|
        0 <= a < b < names.len() && (#[trigger] names[a]) is Some && (#[trigger] names[b]) is Some
            ==> names[a] != names[b]
}

/// The decoder's name for each operation code.
pub open spec fn decoder_names() -> Seq<Option<Seq<u8>>> {
    Seq::new(65536, |c: int| opcode_name(c as u16))
}

/// The operation code that bears `name`, if there is one.
pub open spec fn code_named(names: Seq<Option<Seq<u8>>>, name: Seq<u8>) -> Option<u16> {
    if exists|c: int| 0 <= c < names.len() && c < 65536 && #[trigger] names[c] == Some(name) {
        Some((choose|c: int| 0 <= c < names.len() && c < 65536 && #[trigger] names[c] == Some(name)) as u16)
    } else {
        None
    }
}

/// Whether two byte vectors hold the same bytes.
pub fn bytes_equal(a: &[u8], b: &[u8]) -> (r: bool)
    ensures
        r == (a@ == b@),
{
    if a.len() != b.len() {
        return false;
    }
    let mut i: usize = 0;
    while i < a.len()
        invariant
            0 <= i <= a@.len(),
            a@.len() == b@.len(),
            forall|k: int| 0 <= k < i ==> a@[k] == b@[k],
        decreases a@.len() - i,
    {
        if a[i] != b[i] {
            return false;
        }
        i += 1;
    }
    assert(a@ =~= b@);
    true
}

/// Whether the bytes can stand as a line of their own.
pub fn check_line(bytes: &[u8]) -> (r: bool)
    ensures
        r == is_line(bytes@),
{
    let mut i: usize = 0;
    while i < bytes.len()
        invariant
            0 <= i <= bytes@.len(),
            forall|k: int| 0 <= k < i ==> bytes@[k] != NEWLINE && bytes@[k] != CARRIAGE_RETURN,
        decreases bytes@.len() - i,
    {
        if bytes[i] == NEWLINE || bytes[i] == CARRIAGE_RETURN {
            return false;
        }
        i += 1;
    }
    true
}

/// A name for each operation code that has one.
#[derive(Clone, Debug)]
pub struct OpcodeNames {
    names: Vec<Option<Vec<u8>>>,
}

impl View for OpcodeNames {
    type V = Seq<Option<Seq<u8>>>;

    closed spec fn view(&self) -> Seq<Option<Seq<u8>>> {
        Seq::new(
            self.names@.len(),
            |c: int|
                match self.names@[c] {
                    Some(name) => Some(name@),
                    None => None,
                },
        )
    }
}

impl OpcodeNames {
    /// The names can be told apart and written as lines.
    pub open spec fn wf(self) -> bool {
        names_wf(self@)
    }

    /// The table of the decoder's names, if they can be told apart and
    /// written as lines.
    pub fn from_decoder() -> (r: Option<OpcodeNames>)
        ensures
            r is Some <==> names_wf(decoder_names()),
            r matches Some(table) ==> table.wf() && table@ == decoder_names(),
    {
        let mut names: Vec<Option<Vec<u8>>> = Vec::new();
        let mut c: usize = 0;
        while c < 65536
            invariant
                0 <= c <= 65536,
                names@.len() == c,
                forall|k: int|
                    0 <= k < c ==> (match #[trigger] names@[k] {
                        Some(name) => opcode_name(k as u16) == Some(name@) && is_line(name@),
                        None => opcode_name(k as u16).is_none(),
                    }),
                forall|a: int, b: int|
                    0 <= a < b < c && (#[trigger] names@[a]) is Some && (#[trigger] names@[b]) is Some
                        ==> names@[a]->0@ != names@[b]->0@,
            decreases 65536 - c,
        {
            let found = name_of_opcode(c as u16);
            if let Some(name) = &found {
                if !check_line(name.as_slice()) {
                    proof {
                        assert(decoder_names()[c as int] == Some(name@));
                    }
                    return None;
                }
                let mut k: usize = 0;
                while k < c
                    invariant
                        0 <= k <= c < 65536,
                        names@.len() == c,
                        opcode_name(c as u16) == Some(name@),
                        forall|j: int|
                            0 <= j < c ==> (match #[trigger] names@[j] {
                                Some(other) => opcode_name(j as u16) == Some(other@),
                                None => opcode_name(j as u16).is_none(),
                            }),
                        forall|j: int| 0 <= j < k && (#[trigger] names@[j]) is Some ==> names@[j]->0@ != name@,
                    decreases c - k,
                {
                    if let Some(other) = &names[k] {
                        if bytes_equal(other.as_slice(), name.as_slice()) {
                            proof {
                                assert(decoder_names()[k as int] == Some(name@));
                                assert(decoder_names()[c as int] == Some(name@));
                            }
                            return None;
                        }
                    }
                    k += 1;
                }
            }
            names.push(found);
            c += 1;
        }
        let table = OpcodeNames { names };
        proof {
            assert(table@ =~= decoder_names()) by {
                assert forall|k: int| 0 <= k < 65536 implies table@[k] == decoder_names()[k] by {
                    match names@[k] {
                        Some(name) => {},
                        None => {},
                    }
                }
            }
            assert(names_wf(table@)) by {
                assert forall|a: int, b: int|
                    0 <= a < b < table@.len() && (#[trigger] table@[a]) is Some && (#[trigger] table@[b]) is Some
                    implies table@[a] != table@[b] by {
                    assert(names@[a] is Some && names@[b] is Some);
                    assert(names@[a]->0@ != names@[b]->0@);
                }
                assert forall|k: int| 0 <= k < table@.len() && (#[trigger] table@[k]) is Some implies is_line(
                    table@[k]->0,
                ) by {
                    assert(names@[k] is Some);
                }
            }
        }
        Some(table)
    }

    /// The name of the operation code `code`, if it has one.
    pub fn name(&self, code: u16) -> (r: Option<&Vec<u8>>)
        requires
            self.wf(),
        ensures
            match r {
                Some(name) => self@[code as int] == Some(name@),
                None => self@[code as int].is_none(),
            },
    {
        match &self.names[code as usize] {
            Some(name) => Some(name),
            None => None,
        }
    }

    /// The operation code that bears `name`, if there is one.
    pub fn find(&self, name: &[u8]) -> (r: Option<u16>)
        requires
            self.wf(),
        ensures
            r == code_named(self@, name@),
            r matches Some(code) ==> self@[code as int] == Some(name@),
            r.is_none() ==> forall|c: int| 0 <= c < 65536 ==> #[trigger] self@[c] != Some(name@),
    {
        let mut c: usize = 0;
        while c < 65536
            invariant
                0 <= c <= 65536,
                self.wf(),
                forall|k: int| 0 <= k < c ==> #[trigger] self@[k] != Some(name@),
            decreases 65536 - c,
        {
            if let Some(other) = &self.names[c] {
                if bytes_equal(other.as_slice(), name) {
                    proof {
                        assert(self@[c as int] == Some(name@));
                        let chosen = choose|k: int|
                            0 <= k < self@.len() && k < 65536 && #[trigger] self@[k] == Some(name@);
                        if chosen < c {
                            assert(self@[chosen] != Some(name@));
                        }
                        if chosen > c {
                            assert(self@[c as int] != self@[chosen]);
                        }
                    }
                    return Some(c as u16);
                }
            }
            c += 1;
        }
        None
    }
}

} // verus!
