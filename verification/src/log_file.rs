//! The log file: it starts with the UTF-8 byte order mark, and holds one
//! line per event.

use vstd::prelude::*;

verus! {

/// The UTF-8 byte order mark.
pub open spec fn bom() -> Seq<u8> {
    seq![0xEFu8, 0xBBu8, 0xBFu8]
}

/// What a log file must be rewritten to so that it starts with the byte
/// order mark: nothing when it does already; the mark before what it holds
/// otherwise; the mark alone when it could not be read.
pub open spec fn bom_rewrite_spec(existing: Option<Seq<u8>>) -> Option<Seq<u8>> {
    match existing {
        Some(data) => if data.len() >= 3 && data.take(3) == bom() {
            None
        } else {
            Some(bom() + data)
        },
        None => Some(bom()),
    }
}

pub open spec fn bytes_view(b: Option<&[u8]>) -> Option<Seq<u8>> {
    match b {
        Some(d) => Some(d@),
        None => None,
    }
}

pub fn bom_rewrite(existing: Option<&[u8]>) -> (r: Option<Vec<u8>>)
    ensures
        match r {
            Some(v) => bom_rewrite_spec(bytes_view(existing)) == Some(v@),
            None => bom_rewrite_spec(bytes_view(existing)) is None,
        },
{
    let mut out: Vec<u8> = Vec::new();
    out.push(0xEF);
    out.push(0xBB);
    out.push(0xBF);
    assert(out@ =~= bom());
    match existing {
        Some(data) => {
            if data.len() >= 3 && data[0] == 0xEF && data[1] == 0xBB && data[2] == 0xBF {
                assert(data@.take(3) =~= bom());
                return None;
            }
            assert(!(data@.len() >= 3 && data@.take(3) == bom())) by {
                if data@.len() >= 3 && data@.take(3) == bom() {
                    assert(data@.take(3)[0] == data@[0]);
                    assert(data@.take(3)[1] == data@[1]);
                    assert(data@.take(3)[2] == data@[2]);
                }
            }
            let mut i: usize = 0;
            while i < data.len()
                invariant
                    i <= data@.len(),
                    out@ == bom() + data@.take(i as int),
                decreases data.len() - i,
            {
                out.push(data[i]);
                assert(out@ =~= bom() + data@.take(i as int + 1));
                i += 1;
            }
            assert(data@.take(data@.len() as int) =~= data@);
            Some(out)
        },
        None => Some(out),
    }
}

/// One line of the log: `[timestamp] level message`.
pub fn log_line(timestamp: &str, level: &str, msg: &str) -> (r: String)
    ensures
        r@ == seq!['['] + timestamp@ + seq![']', ' '] + level@ + seq![' '] + msg@,
{
    let mut s = String::new();
    crate::text::push_char(&mut s, '[');
    s.append(timestamp);
    crate::text::push_char(&mut s, ']');
    crate::text::push_char(&mut s, ' ');
    s.append(level);
    crate::text::push_char(&mut s, ' ');
    s.append(msg);
    assert(s@ =~= seq!['['] + timestamp@ + seq![']', ' '] + level@ + seq![' '] + msg@);
    s
}

} // verus!
