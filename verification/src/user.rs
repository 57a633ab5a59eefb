//! Names of users and groups, looked up by number in the text of a database of
//! lines such as `name:x:1000:...`.

use crate::text::{
    contains, contains_bytes, decimal, find_byte, lemma_position, position, push_decimal,
    split_before,
};
use vstd::prelude::*;
use vstd::string::*;
use vstd::utf8::*;

verus! {

/// The byte that ends a line.
pub const LINE_FEED: u8 = 10;

/// The byte that parts the fields of a line.
pub const COLON: u8 = 58;

/// What a line holds if it is about the user or group `id`: the number between two colons.
pub open spec fn id_key(id: u32) -> Seq<char> {
    ":"@ + decimal(id as nat) + ":"@
}

/// The name that the bytes of a database give for `key`: of the first line that
/// holds `key`, what stands before the first colon; nothing where no line holds it.
pub open spec fn name_in_lines(db: Seq<u8>, key: Seq<u8>) -> Seq<u8>
    decreases db.len(),
{
    let end = position(db, LINE_FEED);
    let line = db.take(end);
    if contains(line, key) {
        line.take(position(line, COLON))
    } else if end >= db.len() {
        Seq::empty()
    } else {
        proof {
            lemma_position(db, LINE_FEED);
        }
        name_in_lines(db.skip(end + 1), key)
    }
}

/// The name that the database `db` gives for the user or group `id`.
pub open spec fn name_in_db(db: Seq<char>, id: u32) -> Seq<char> {
    decode_utf8(name_in_lines(encode_utf8(db), encode_utf8(id_key(id))))
}

/// Looks up the name of user or group `id` in the text of a database.
pub fn get_name_from_db(id: u32, db_string: String) -> (name: String)
    ensures
        name@ == name_in_db(db_string@, id),
        encode_utf8(name@) == name_in_lines(encode_utf8(db_string@), encode_utf8(id_key(id))),
{
    let mut key = String::new();
    key.append(":");
    push_decimal(&mut key, id as u128);
    key.append(":");
    assert(key@ =~= id_key(id));
    let pattern = key.as_str().as_bytes();
    let ghost whole = encode_utf8(db_string@);
    let mut remaining: &str = db_string.as_str();
    loop
        invariant
            pattern@ == encode_utf8(id_key(id)),
            whole == encode_utf8(db_string@),
            name_in_lines(encode_utf8(remaining@), pattern@) == name_in_lines(whole, pattern@),
        decreases encode_utf8(remaining@).len(),
    {
        let ghost bytes = encode_utf8(remaining@);
        let end = find_byte(remaining.as_bytes(), LINE_FEED);
        proof {
            lemma_position(bytes, LINE_FEED);
        }
        let (line, rest) = split_before(remaining, end);
        let line_bytes = line.as_bytes();
        if contains_bytes(line_bytes, pattern) {
            let colon = find_byte(line_bytes, COLON);
            proof {
                lemma_position(line_bytes@, COLON);
            }
            let (found, _) = split_before(line, colon);
            let name = found.to_owned();
            proof {
                encode_utf8_decode_utf8(name@);
            }
            return name;
        }
        if end >= remaining.as_bytes().len() {
            let name = String::new();
            proof {
                encode_utf8_decode_utf8(name@);
                assert(encode_utf8(name@) =~= Seq::<u8>::empty());
            }
            return name;
        }
        proof {
            let tail = encode_utf8(rest@);
            encode_utf8_valid_utf8(rest@);
            assert(tail[0] == LINE_FEED);
            assert(tail.skip(1) =~= bytes.skip(end + 1));
            assert(pop_first_scalar(tail) == tail.subrange(1, tail.len() as int));
            assert(valid_utf8(pop_first_scalar(tail)));
            if tail.len() > 1 {
                assert(valid_first_scalar(pop_first_scalar(tail)));
                assert(pop_first_scalar(tail)[0] == tail[1]);
            }
        }
        let (_, next) = split_before(rest, 1);
        remaining = next;
    }
}

} // verus!
