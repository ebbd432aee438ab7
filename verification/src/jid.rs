use vstd::prelude::*;
use vstd::std_specs::iter::IteratorSpec;
use vstd::string::StringSliceAdditionalSpecFns;

use crate::entities::utf8_len;

verus! {

// Texts of the problems reported as `BadJid`.
pub const DOMAIN_EMPTY: &'static str = "domainpart is empty";
pub const DOMAIN_TOO_LONG: &'static str = "domainpart is longer than 1023 octets";
pub const LOCAL_EMPTY: &'static str = "localpart is empty";
pub const LOCAL_TOO_LONG: &'static str = "localpart is longer than 1023 octets";
pub const RESOURCE_EMPTY: &'static str = "resourcepart is empty";
pub const RESOURCE_TOO_LONG: &'static str = "resourcepart is longer than 1023 octets";

/// The longest part of an address, in bytes.
pub const MAX_PART_BYTES: usize = 1023;

/// A malformed Jabber address; the text names the problem.
#[derive(Debug, PartialEq, Eq, Copy, Clone)]
pub struct BadJid(pub &'static str);

/// The parts of a Jabber address.
pub struct JidView {
    pub local: Option<Seq<char>>,
    pub domain: Seq<char>,
    pub resource: Option<Seq<char>>,
}

/// The position of the first `c` in `s` from position `k` on.
pub open spec fn find_char(s: Seq<char>, c: char, k: int) -> Option<int>
    decreases s.len() - k,
{
    if k < 0 || k >= s.len() {
        None
    } else if s[k] == c {
        Some(k)
    } else {
        find_char(s, c, k + 1)
    }
}

pub proof fn lemma_find_char(s: Seq<char>, c: char, k: int)
    requires
        0 <= k,
    ensures
        find_char(s, c, k) matches Some(j) ==> k <= j < s.len() && s[j] == c && forall|m: int|
            k <= m < j ==> s[m] != c,
        find_char(s, c, k) is None ==> forall|m: int| k <= m < s.len() ==> s[m] != c,
    decreases s.len() - k,
{
    if k < s.len() && s[k] != c {
        lemma_find_char(s, c, k + 1);
    }
}

/// Splits an address into its parts: the resource follows the first `/`,
/// the local part precedes the first `@` before it. Each part must be
/// non-empty and at most 1023 bytes long; one trailing dot of the domain
/// is dropped, and a domain that is only that dot counts as empty.
pub open spec fn parse_jid(j: Seq<char>) -> Result<JidView, BadJid> {
    let slash = find_char(j, '/', 0);
    let bare = match slash {
        Some(p) => j.take(p),
        None => j,
    };
    let at = find_char(bare, '@', 0);
    let domain = match at {
        Some(p) => bare.skip(p + 1),
        None => bare,
    };
    if domain.len() == 0 || (domain.len() == 1 && domain[0] == '.') {
        Err(BadJid(DOMAIN_EMPTY))
    } else if utf8_len(domain) > 1023 {
        Err(BadJid(DOMAIN_TOO_LONG))
    } else if at == Some(0int) {
        Err(BadJid(LOCAL_EMPTY))
    } else if at is Some && utf8_len(bare.take(at->0)) > 1023 {
        Err(BadJid(LOCAL_TOO_LONG))
    } else if slash is Some && j.skip(slash->0 + 1).len() == 0 {
        Err(BadJid(RESOURCE_EMPTY))
    } else if slash is Some && utf8_len(j.skip(slash->0 + 1)) > 1023 {
        Err(BadJid(RESOURCE_TOO_LONG))
    } else {
        Ok(
            JidView {
                local: match at {
                    Some(p) => Some(bare.take(p)),
                    None => None,
                },
                domain: if domain.last() == '.' {
                    domain.drop_last()
                } else {
                    domain
                },
                resource: match slash {
                    Some(p) => Some(j.skip(p + 1)),
                    None => None,
                },
            },
        )
    }
}

/// The address without its resource: `local@domain`, or the domain.
pub open spec fn bare_text(v: JidView) -> Seq<char> {
    match v.local {
        Some(l) => l + seq!['@'] + v.domain,
        None => v.domain,
    }
}

/// The whole address: the bare address, then `/` and the resource.
pub open spec fn full_text(v: JidView) -> Seq<char> {
    match v.resource {
        Some(r) => bare_text(v) + seq!['/'] + r,
        None => bare_text(v),
    }
}

/// A Jabber address (JID): `localpart@domainpart/resourcepart`, with the
/// local part and the resource optional.
#[derive(Debug, Clone, PartialEq, Eq, PartialOrd, Ord, Hash)]
pub struct Jid {
    full: String,
    bare: String,
    local: Option<String>,
    domain: String,
    resource: Option<String>,
}

pub open spec fn opt_view(s: Option<String>) -> Option<Seq<char>> {
    match s {
        Some(x) => Some(x@),
        None => None,
    }
}

impl View for Jid {
    type V = JidView;

    closed spec fn view(&self) -> JidView {
        JidView { local: opt_view(self.local), domain: self.domain@, resource: opt_view(self.resource) }
    }
}

/// The characters of a string, in a vector.
pub fn chars_of(s: &str) -> (r: Vec<char>)
    ensures
        r@ == s@,
{
    let mut out: Vec<char> = Vec::new();
    let mut it = s.chars();
    let ghost mut k: int = 0;
    loop
        invariant
            0 <= k <= s@.len(),
            it.remaining() == s@.skip(k),
            it.obeys_prophetic_iter_laws(),
            out@ == s@.take(k),
        decreases s@.len() - k,
    {
        let ghost prev = it;
        match it.next() {
            Some(c) => {
                proof {
                    assert(prev.remaining().len() > 0);
                    assert(s@.skip(k).drop_first() =~= s@.skip(k + 1));
                }
                out.push(c);
                proof {
                    assert(out@ =~= s@.take(k + 1));
                    k = k + 1;
                }
            },
            None => {
                proof {
                    assert(s@.take(k) =~= s@);
                }
                return out;
            },
        }
    }
}

/// The string of the characters `v[a..b]`.
pub fn string_of(v: &Vec<char>, a: usize, b: usize) -> (r: String)
    requires
        a <= b <= v@.len(),
    ensures
        r@ == v@.subrange(a as int, b as int),
{
    let mut s = String::new();
    let mut k = a;
    while k < b
        invariant
            a <= k <= b <= v@.len(),
            s@ == v@.subrange(a as int, k as int),
        decreases b - k,
    {
        s.push(v[k]);
        k = k + 1;
        assert(s@ =~= v@.subrange(a as int, k as int));
    }
    s
}

/// The first position of `c` in `v[k..end]`.
fn find_exec(v: &Vec<char>, c: char, end: usize) -> (r: Option<usize>)
    requires
        end <= v@.len(),
    ensures
        (match r {
            Some(p) => Some(p as int),
            None => None,
        }) == find_char(v@.take(end as int), c, 0),
{
    let ghost s = v@.take(end as int);
    let mut k: usize = 0;
    while k < end
        invariant
            k <= end <= v@.len(),
            s == v@.take(end as int),
            find_char(s, c, k as int) == find_char(s, c, 0),
        decreases end - k,
    {
        if v[k] == c {
            return Some(k);
        }
        k = k + 1;
    }
    None
}

/// The number of bytes of the UTF-8 encoding of a string.
fn byte_len(s: &String) -> (r: usize)
    ensures
        r == utf8_len(s@),
{
    s.as_str().as_bytes().len()
}

impl Jid {
    pub closed spec fn wf(&self) -> bool {
        &&& self.full@ == full_text(self@)
        &&& self.bare@ == bare_text(self@)
    }

    fn assemble(local: Option<String>, domain: String, resource: Option<String>) -> (r: Jid)
        ensures
            r.wf(),
            r@ == (JidView {
                local: opt_view(local),
                domain: domain@,
                resource: opt_view(resource),
            }),
    {
        let mut bare = String::new();
        match &local {
            Some(l) => {
                bare.push_str(l.as_str());
                bare.push('@');
            },
            None => {},
        }
        bare.push_str(domain.as_str());
        let mut full = String::new();
        full.push_str(bare.as_str());
        match &resource {
            Some(r) => {
                full.push('/');
                full.push_str(r.as_str());
            },
            None => {},
        }
        let j = Jid { full, bare, local, domain, resource };
        proof {
            assert(j.bare@ =~= bare_text(j@));
            assert(j.full@ =~= full_text(j@));
        }
        j
    }

    /// Parses an address.
    pub fn new(jid: &str) -> (r: Result<Jid, BadJid>)
        ensures
            r matches Ok(j) ==> j.wf() && j@.domain.len() > 0,
            (match r {
                Ok(j) => Ok(j@),
                Err(e) => Err(e),
            }) == parse_jid(jid@),
    {
        let v = chars_of(jid);
        let ghost j = jid@;
        let n = v.len();
        assert(v@.take(n as int) =~= j);
        let slash = find_exec(&v, '/', n);
        let bare_end = match slash {
            Some(p) => p,
            None => n,
        };
        proof {
            lemma_find_char(j, '/', 0);
            assert(v@.take(bare_end as int) =~= (match find_char(j, '/', 0) {
                Some(p) => j.take(p),
                None => j,
            }));
        }
        let at = find_exec(&v, '@', bare_end);
        proof {
            lemma_find_char(v@.take(bare_end as int), '@', 0);
        }
        let dstart = match at {
            Some(p) => p + 1,
            None => 0,
        };
        let domain = string_of(&v, dstart, bare_end);
        proof {
            assert(domain@ =~= (match at {
                Some(p) => v@.take(bare_end as int).skip(p + 1),
                None => v@.take(bare_end as int),
            }));
        }
        if bare_end == dstart || (bare_end == dstart + 1 && v[dstart] == '.') {
            return Err(BadJid(DOMAIN_EMPTY));
        }
        if byte_len(&domain) > MAX_PART_BYTES {
            return Err(BadJid(DOMAIN_TOO_LONG));
        }
        let mut local: Option<String> = None;
        match at {
            Some(p) => {
                if p == 0 {
                    return Err(BadJid(LOCAL_EMPTY));
                }
                let l = string_of(&v, 0, p);
                proof {
                    assert(l@ =~= v@.take(bare_end as int).take(p as int));
                }
                if byte_len(&l) > MAX_PART_BYTES {
                    return Err(BadJid(LOCAL_TOO_LONG));
                }
                local = Some(l);
            },
            None => {},
        }
        let mut resource: Option<String> = None;
        match slash {
            Some(p) => {
                if p + 1 == n {
                    assert(j.skip(p + 1) =~= Seq::<char>::empty());
                    return Err(BadJid(RESOURCE_EMPTY));
                }
                let r = string_of(&v, p + 1, n);
                proof {
                    assert(r@ =~= j.skip(p + 1));
                }
                if byte_len(&r) > MAX_PART_BYTES {
                    return Err(BadJid(RESOURCE_TOO_LONG));
                }
                resource = Some(r);
            },
            None => {},
        }
        let dlen = bare_end - dstart;
        let domain = if v[bare_end - 1] == '.' {
            string_of(&v, dstart, bare_end - 1)
        } else {
            domain
        };
        proof {
            let d0 = v@.subrange(dstart as int, bare_end as int);
            assert(d0.last() == v@[bare_end - 1]);
            assert(d0.drop_last() =~= v@.subrange(dstart as int, bare_end - 1));
        }
        Ok(Self::assemble(local, domain, resource))
    }

    /// The whole address.
    pub fn full(&self) -> (r: &str)
        requires
            self.wf(),
        ensures
            r@ == full_text(self@),
    {
        self.full.as_str()
    }

    /// The address without the resource.
    pub fn bare(&self) -> (r: &str)
        requires
            self.wf(),
        ensures
            r@ == bare_text(self@),
    {
        self.bare.as_str()
    }

    /// The local part, if any.
    pub fn localpart(&self) -> (r: Option<&str>)
        ensures
            (match r {
                Some(s) => Some(s@),
                None => None,
            }) == self@.local,
    {
        match &self.local {
            Some(l) => Some(l.as_str()),
            None => None,
        }
    }

    /// The domain part.
    pub fn domainpart(&self) -> (r: &str)
        ensures
            r@ == self@.domain,
    {
        self.domain.as_str()
    }

    /// The resource part, if any.
    pub fn resourcepart(&self) -> (r: Option<&str>)
        ensures
            (match r {
                Some(s) => Some(s@),
                None => None,
            }) == self@.resource,
    {
        match &self.resource {
            Some(l) => Some(l.as_str()),
            None => None,
        }
    }

    /// The address has no resource.
    pub fn is_bare(&self) -> (r: bool)
        ensures
            r == (self@.resource is None),
    {
        self.resource.is_none()
    }

    /// The same address with another resource.
    pub fn with_resource(self, resource: &str) -> (r: Result<Jid, BadJid>)
        ensures
            r matches Ok(j) ==> j.wf(),
            resource@.len() == 0 ==> r == Err::<Jid, BadJid>(BadJid(RESOURCE_EMPTY)),
            resource@.len() > 0 && utf8_len(resource@) > 1023 ==> r == Err::<Jid, BadJid>(
                BadJid(RESOURCE_TOO_LONG),
            ),
            resource@.len() > 0 && utf8_len(resource@) <= 1023 ==> (r matches Ok(j) && j@ == (
            JidView { resource: Some(resource@), ..self@ })),
    {
        let rlen = resource.as_bytes().len();
        if rlen == 0 {
            proof {
                crate::utf8_text::lemma_encode_injective(resource@, Seq::empty());
                assert(vstd::utf8::encode_utf8(Seq::<char>::empty()) =~= Seq::<u8>::empty());
            }
            return Err(BadJid(RESOURCE_EMPTY));
        }
        proof {
            if resource@.len() == 0 {
                assert(resource@ =~= Seq::<char>::empty());
                assert(vstd::utf8::encode_utf8(Seq::<char>::empty()) =~= Seq::<u8>::empty());
            }
        }
        if rlen > MAX_PART_BYTES {
            return Err(BadJid(RESOURCE_TOO_LONG));
        }
        let mut r = String::new();
        r.push_str(resource);
        Ok(Self::assemble(self.local, self.domain, Some(r)))
    }
}

/// The first `c` from position `k` on is at `j` when `j` holds it and none
/// between `k` and `j` does.
proof fn lemma_find_char_at(s: Seq<char>, c: char, k: int, j: int)
    requires
        0 <= k <= j < s.len(),
        s[j] == c,
        forall|m: int| k <= m < j ==> s[m] != c,
    ensures
        find_char(s, c, k) == Some(j),
    decreases j - k,
{
    if k < j {
        lemma_find_char_at(s, c, k + 1, j);
    }
}

/// No `c` from position `k` on: none is found.
proof fn lemma_find_char_none(s: Seq<char>, c: char, k: int)
    requires
        0 <= k,
        forall|m: int| k <= m < s.len() ==> s[m] != c,
    ensures
        find_char(s, c, k) is None,
    decreases s.len() - k,
{
    if k < s.len() {
        lemma_find_char_none(s, c, k + 1);
    }
}

/// Law of addresses: an address that was parsed, written out whole and
/// parsed again, is the same address. This holds whenever its domain is
/// not empty and does not end in a dot (parsing drops one trailing dot,
/// so a domain written with two would lose another one).
pub proof fn law_jid_full_roundtrip(j: Seq<char>)
    requires
        parse_jid(j) is Ok,
        parse_jid(j)->Ok_0.domain.len() > 0,
        parse_jid(j)->Ok_0.domain.last() != '.',
    ensures
        parse_jid(full_text(parse_jid(j)->Ok_0)) == parse_jid(j),
{
    let v = parse_jid(j)->Ok_0;
    let slash = find_char(j, '/', 0);
    let bare = match slash {
        Some(p) => j.take(p),
        None => j,
    };
    let at = find_char(bare, '@', 0);
    let domain = match at {
        Some(p) => bare.skip(p + 1),
        None => bare,
    };
    lemma_find_char(j, '/', 0);
    lemma_find_char(bare, '@', 0);
    assert(forall|m: int| 0 <= m < bare.len() ==> bare[m] != '/');
    assert(forall|m: int| 0 <= m < domain.len() ==> domain[m] != '/');
    assert(at is None ==> forall|m: int| 0 <= m < domain.len() ==> domain[m] != '@');
    // the domain kept is the domain written, but for one trailing dot
    assert(v.domain.len() <= domain.len());
    assert(forall|m: int| 0 <= m < v.domain.len() ==> v.domain[m] == domain[m]);
    assert(utf8_len(v.domain) <= 1023) by {
        if domain.last() == '.' {
            assert(domain =~= v.domain + seq!['.']);
            crate::entities::lemma_utf8_len_concat(v.domain, seq!['.']);
        }
    }
    let b2 = bare_text(v);
    let f = full_text(v);
    assert(forall|m: int| 0 <= m < v.domain.len() ==> v.domain[m] != '/');
    // the first '@', if any, ends the local part
    match v.local {
        Some(l) => {
            let p = at->0;
            assert(l == bare.take(p));
            assert(b2 == l + seq!['@'] + v.domain);
            assert(b2[l.len() as int] == '@');
            assert forall|m: int| 0 <= m < l.len() implies b2[m] != '@' by {
                assert(b2[m] == l[m]);
            }
            lemma_find_char_at(b2, '@', 0, l.len() as int);
            assert(b2.take(l.len() as int) =~= l);
            assert(b2.skip(l.len() as int + 1) =~= v.domain);
            assert forall|m: int| 0 <= m < b2.len() implies b2[m] != '/' by {
                if m < l.len() {
                    assert(b2[m] == l[m]);
                } else if m > l.len() {
                    assert(b2[m] == v.domain[m - l.len() - 1]);
                }
            }
        },
        None => {
            assert(b2 == v.domain);
            lemma_find_char_none(b2, '@', 0);
        },
    }
    // the first '/', if any, ends the bare address
    match v.resource {
        Some(r) => {
            assert(f == b2 + seq!['/'] + r);
            assert(f[b2.len() as int] == '/');
            assert forall|m: int| 0 <= m < b2.len() implies f[m] != '/' by {
                assert(f[m] == b2[m]);
            }
            lemma_find_char_at(f, '/', 0, b2.len() as int);
            assert(f.take(b2.len() as int) =~= b2);
            assert(f.skip(b2.len() as int + 1) =~= r);
        },
        None => {
            assert(f == b2);
            lemma_find_char_none(f, '/', 0);
        },
    }
}

} // verus!
