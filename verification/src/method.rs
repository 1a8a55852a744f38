//! The closed set of request methods.

use vstd::prelude::*;

use crate::ascii::{bytes_eq, is_tchar};
use crate::errors::RequestLineError;

verus! {

/// An HTTP request method.
#[derive(Debug, PartialEq, Eq, Structural, Clone, Copy)]
pub enum Method {
    Get,
    Head,
    Post,
    Put,
    Delete,
    Connect,
    Options,
    Trace,
}

/// The wire form of each method: its upper-case ASCII name.
pub open spec fn spec_method_bytes(m: Method) -> Seq<u8> {
    match m {
        Method::Get => seq![71u8, 69, 84],
        Method::Head => seq![72u8, 69, 65, 68],
        Method::Post => seq![80u8, 79, 83, 84],
        Method::Put => seq![80u8, 85, 84],
        Method::Delete => seq![68u8, 69, 76, 69, 84, 69],
        Method::Connect => seq![67u8, 79, 78, 78, 69, 67, 84],
        Method::Options => seq![79u8, 80, 84, 73, 79, 78, 83],
        Method::Trace => seq![84u8, 82, 65, 67, 69],
    }
}

/// The title-case byte form `to_bytes` emits.
pub open spec fn spec_method_title_bytes(m: Method) -> Seq<u8> {
    match m {
        Method::Get => seq![71u8, 101, 116],
        Method::Head => seq![72u8, 101, 97, 100],
        Method::Post => seq![80u8, 111, 115, 116],
        Method::Put => seq![80u8, 117, 116],
        Method::Delete => seq![68u8, 101, 108, 101, 116, 101],
        Method::Connect => seq![67u8, 111, 110, 110, 101, 99, 116],
        Method::Options => seq![79u8, 112, 116, 105, 111, 110, 115],
        Method::Trace => seq![84u8, 114, 97, 99, 101],
    }
}

/// The upper-case name of each method, as characters.
pub open spec fn spec_method_str(m: Method) -> Seq<char> {
    match m {
        Method::Get => seq!['G', 'E', 'T'],
        Method::Head => seq!['H', 'E', 'A', 'D'],
        Method::Post => seq!['P', 'O', 'S', 'T'],
        Method::Put => seq!['P', 'U', 'T'],
        Method::Delete => seq!['D', 'E', 'L', 'E', 'T', 'E'],
        Method::Connect => seq!['C', 'O', 'N', 'N', 'E', 'C', 'T'],
        Method::Options => seq!['O', 'P', 'T', 'I', 'O', 'N', 'S'],
        Method::Trace => seq!['T', 'R', 'A', 'C', 'E'],
    }
}

/// What parsing a method token yields: the unique method whose name the
/// bytes spell, or `InvalidMehtod`.
pub open spec fn spec_method_parse(b: Seq<u8>) -> Result<Method, RequestLineError> {
    if b == spec_method_bytes(Method::Get) {
        Ok(Method::Get)
    } else if b == spec_method_bytes(Method::Head) {
        Ok(Method::Head)
    } else if b == spec_method_bytes(Method::Post) {
        Ok(Method::Post)
    } else if b == spec_method_bytes(Method::Put) {
        Ok(Method::Put)
    } else if b == spec_method_bytes(Method::Delete) {
        Ok(Method::Delete)
    } else if b == spec_method_bytes(Method::Connect) {
        Ok(Method::Connect)
    } else if b == spec_method_bytes(Method::Options) {
        Ok(Method::Options)
    } else if b == spec_method_bytes(Method::Trace) {
        Ok(Method::Trace)
    } else {
        Err(RequestLineError::InvalidMehtod)
    }
}

/// The upper-case ASCII name of a method, as owned bytes.
pub fn method_bytes(m: &Method) -> (r: Vec<u8>)
    ensures
        r@ == spec_method_bytes(*m),
{
    let mut out: Vec<u8> = Vec::new();
    match m {
        Method::Get => {
            out.push(71);
            out.push(69);
            out.push(84);
        },
        Method::Head => {
            out.push(72);
            out.push(69);
            out.push(65);
            out.push(68);
        },
        Method::Post => {
            out.push(80);
            out.push(79);
            out.push(83);
            out.push(84);
        },
        Method::Put => {
            out.push(80);
            out.push(85);
            out.push(84);
        },
        Method::Delete => {
            out.push(68);
            out.push(69);
            out.push(76);
            out.push(69);
            out.push(84);
            out.push(69);
        },
        Method::Connect => {
            out.push(67);
            out.push(79);
            out.push(78);
            out.push(78);
            out.push(69);
            out.push(67);
            out.push(84);
        },
        Method::Options => {
            out.push(79);
            out.push(80);
            out.push(84);
            out.push(73);
            out.push(79);
            out.push(78);
            out.push(83);
        },
        Method::Trace => {
            out.push(84);
            out.push(82);
            out.push(65);
            out.push(67);
            out.push(69);
        },
    }
    proof {
        assert(out@ =~= spec_method_bytes(*m));
    }
    out
}

impl Method {
    /// Parses a method token; exactly the eight upper-case names are
    /// accepted, anything else is `InvalidMehtod`.
    pub fn parse(bytes: &[u8]) -> (r: Result<Method, RequestLineError>)
        ensures
            r == spec_method_parse(bytes@),
            match r {
                Ok(m) => bytes@ == spec_method_bytes(m),
                Err(e) => e == RequestLineError::InvalidMehtod && forall|m: Method|
                    bytes@ != spec_method_bytes(m),
            },
    {
        let candidates = [
            Method::Get,
            Method::Head,
            Method::Post,
            Method::Put,
            Method::Delete,
            Method::Connect,
            Method::Options,
            Method::Trace,
        ];
        let mut i: usize = 0;
        while i < 8
            invariant
                i <= 8,
                candidates@.len() == 8,
                forall|j: int| 0 <= j < i ==> bytes@ != spec_method_bytes(candidates@[j]),
                candidates@ =~= seq![
                    Method::Get,
                    Method::Head,
                    Method::Post,
                    Method::Put,
                    Method::Delete,
                    Method::Connect,
                    Method::Options,
                    Method::Trace,
                ],
            decreases 8 - i,
        {
            let name = method_bytes(&candidates[i]);
            if bytes_eq(bytes, name.as_slice()) {
                return Ok(candidates[i]);
            }
            i += 1;
        }
        proof {
            assert forall|m: Method| bytes@ != spec_method_bytes(m) by {
                match m {
                    Method::Get => assert(bytes@ != spec_method_bytes(candidates@[0])),
                    Method::Head => assert(bytes@ != spec_method_bytes(candidates@[1])),
                    Method::Post => assert(bytes@ != spec_method_bytes(candidates@[2])),
                    Method::Put => assert(bytes@ != spec_method_bytes(candidates@[3])),
                    Method::Delete => assert(bytes@ != spec_method_bytes(candidates@[4])),
                    Method::Connect => assert(bytes@ != spec_method_bytes(candidates@[5])),
                    Method::Options => assert(bytes@ != spec_method_bytes(candidates@[6])),
                    Method::Trace => assert(bytes@ != spec_method_bytes(candidates@[7])),
                }
            }
        }
        Err(RequestLineError::InvalidMehtod)
    }

    /// The upper-case name of the method as a string slice.
    pub fn to_str(&self) -> (r: &'static str)
        ensures
            r@ == spec_method_str(*self),
    {
        let r = match self {
            Method::Get => "GET",
            Method::Head => "HEAD",
            Method::Post => "POST",
            Method::Put => "PUT",
            Method::Delete => "DELETE",
            Method::Connect => "CONNECT",
            Method::Options => "OPTIONS",
            Method::Trace => "TRACE",
        };
        proof {
            reveal_strlit("GET");
            reveal_strlit("HEAD");
            reveal_strlit("POST");
            reveal_strlit("PUT");
            reveal_strlit("DELETE");
            reveal_strlit("CONNECT");
            reveal_strlit("OPTIONS");
            reveal_strlit("TRACE");
            assert("GET"@ =~= spec_method_str(Method::Get));
            assert("HEAD"@ =~= spec_method_str(Method::Head));
            assert("POST"@ =~= spec_method_str(Method::Post));
            assert("PUT"@ =~= spec_method_str(Method::Put));
            assert("DELETE"@ =~= spec_method_str(Method::Delete));
            assert("CONNECT"@ =~= spec_method_str(Method::Connect));
            assert("OPTIONS"@ =~= spec_method_str(Method::Options));
            assert("TRACE"@ =~= spec_method_str(Method::Trace));
        }
        r
    }

    /// The title-case byte form of the method name.
    pub fn to_bytes(&self) -> (r: Vec<u8>)
        ensures
            r@ == spec_method_title_bytes(*self),
    {
        let mut out: Vec<u8> = Vec::new();
        match self {
            Method::Get => {
                out.push(71);
                out.push(101);
                out.push(116);
            },
            Method::Head => {
                out.push(72);
                out.push(101);
                out.push(97);
                out.push(100);
            },
            Method::Post => {
                out.push(80);
                out.push(111);
                out.push(115);
                out.push(116);
            },
            Method::Put => {
                out.push(80);
                out.push(117);
                out.push(116);
            },
            Method::Delete => {
                out.push(68);
                out.push(101);
                out.push(108);
                out.push(101);
                out.push(116);
                out.push(101);
            },
            Method::Connect => {
                out.push(67);
                out.push(111);
                out.push(110);
                out.push(110);
                out.push(101);
                out.push(99);
                out.push(116);
            },
            Method::Options => {
                out.push(79);
                out.push(112);
                out.push(116);
                out.push(105);
                out.push(111);
                out.push(110);
                out.push(115);
            },
            Method::Trace => {
                out.push(84);
                out.push(114);
                out.push(97);
                out.push(99);
                out.push(101);
            },
        }
        proof {
            assert(out@ =~= spec_method_title_bytes(*self));
        }
        out
    }
}

/// A method name is non-empty and all `tchar` — in particular it holds no
/// space, colon, slash, CR or LF.
pub proof fn lemma_method_bytes_tchar(m: Method)
    ensures
        spec_method_bytes(m).len() > 0,
        forall|j: int| 0 <= j < spec_method_bytes(m).len() ==> is_tchar(
            #[trigger] spec_method_bytes(m)[j],
        ),
{
    let s = spec_method_bytes(m);
    match m {
        Method::Get => {
            assert forall|j: int| 0 <= j < s.len() implies is_tchar(s[j]) by {
                assert(s[0] == 71 && s[1] == 69 && s[2] == 84);
            }
        },
        Method::Head => {
            assert forall|j: int| 0 <= j < s.len() implies is_tchar(s[j]) by {
                assert(s[0] == 72 && s[1] == 69 && s[2] == 65 && s[3] == 68);
            }
        },
        Method::Post => {
            assert forall|j: int| 0 <= j < s.len() implies is_tchar(s[j]) by {
                assert(s[0] == 80 && s[1] == 79 && s[2] == 83 && s[3] == 84);
            }
        },
        Method::Put => {
            assert forall|j: int| 0 <= j < s.len() implies is_tchar(s[j]) by {
                assert(s[0] == 80 && s[1] == 85 && s[2] == 84);
            }
        },
        Method::Delete => {
            assert forall|j: int| 0 <= j < s.len() implies is_tchar(s[j]) by {
                assert(s[0] == 68 && s[1] == 69 && s[2] == 76 && s[3] == 69 && s[4] == 84 && s[5]
                    == 69);
            }
        },
        Method::Connect => {
            assert forall|j: int| 0 <= j < s.len() implies is_tchar(s[j]) by {
                assert(s[0] == 67 && s[1] == 79 && s[2] == 78 && s[3] == 78 && s[4] == 69 && s[5]
                    == 67 && s[6] == 84);
            }
        },
        Method::Options => {
            assert forall|j: int| 0 <= j < s.len() implies is_tchar(s[j]) by {
                assert(s[0] == 79 && s[1] == 80 && s[2] == 84 && s[3] == 73 && s[4] == 79 && s[5]
                    == 78 && s[6] == 83);
            }
        },
        Method::Trace => {
            assert forall|j: int| 0 <= j < s.len() implies is_tchar(s[j]) by {
                assert(s[0] == 84 && s[1] == 82 && s[2] == 65 && s[3] == 67 && s[4] == 69);
            }
        },
    }
}

} // verus!
