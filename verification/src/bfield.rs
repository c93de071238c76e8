//! The cascade: an ordered, non-empty sequence of members sharing the same
//! marker parameters.  During a build each key is written into the member of
//! its pass only when every earlier member answers indeterminate for it;
//! during lookup the first member answer that is not indeterminate wins.

use vstd::prelude::*;
use vstd::string::StringExecFns;
use vstd::string::StringSliceAdditionalSpecFns;
use crate::binomial::binom;
use crate::bfield_member::{
    BFieldLookup, BFieldMember, BFieldVal, hash128_of, inserted_upto, mask_or_insert_spec,
};
use crate::combinatorial::nth_pattern;
use crate::bitstore::{err_not_found, path_exists};

verus! {

/// The digit character of d.
pub open spec fn digit_char(d: nat) -> char {
    if d == 0 {
        '0'
    } else if d == 1 {
        '1'
    } else if d == 2 {
        '2'
    } else if d == 3 {
        '3'
    } else if d == 4 {
        '4'
    } else if d == 5 {
        '5'
    } else if d == 6 {
        '6'
    } else if d == 7 {
        '7'
    } else if d == 8 {
        '8'
    } else {
        '9'
    }
}

/// The decimal digits of n.
pub open spec fn decimal_chars(n: nat) -> Seq<char>
    decreases n,
{
    if n < 10 {
        seq![digit_char(n)]
    } else {
        decimal_chars(n / 10) + seq![digit_char(n % 10)]
    }
}

/// The path of member n of a cascade: `<directory>/<stem>.<n>.bfd`.
pub open spec fn member_path_chars(directory: Seq<char>, stem: Seq<char>, n: nat) -> Seq<char> {
    directory + "/"@ + stem + "."@ + decimal_chars(n) + ".bfd"@
}

/// One decimal digit as a string slice.
fn digit_str(d: usize) -> (r: &'static str)
    requires
        d < 10,
    ensures
        r@ == seq![digit_char(d as nat)],
{
    if d == 0 {
        proof {
            reveal_strlit("0");
        }
        "0"
    } else if d == 1 {
        proof {
            reveal_strlit("1");
        }
        "1"
    } else if d == 2 {
        proof {
            reveal_strlit("2");
        }
        "2"
    } else if d == 3 {
        proof {
            reveal_strlit("3");
        }
        "3"
    } else if d == 4 {
        proof {
            reveal_strlit("4");
        }
        "4"
    } else if d == 5 {
        proof {
            reveal_strlit("5");
        }
        "5"
    } else if d == 6 {
        proof {
            reveal_strlit("6");
        }
        "6"
    } else if d == 7 {
        proof {
            reveal_strlit("7");
        }
        "7"
    } else if d == 8 {
        proof {
            reveal_strlit("8");
        }
        "8"
    } else {
        proof {
            reveal_strlit("9");
        }
        "9"
    }
}

/// The decimal digits of n as a string.
fn decimal_string(n: usize) -> (r: String)
    ensures
        r@ == decimal_chars(n as nat),
    decreases n,
{
    if n < 10 {
        digit_str(n).to_owned()
    } else {
        let mut s = decimal_string(n / 10);
        s.append(digit_str(n % 10));
        s
    }
}

/// Builds the path of member n of the cascade named `stem` in `directory`.
fn member_path(directory: &str, stem: &str, n: usize) -> (r: String)
    ensures
        r@ == member_path_chars(directory@, stem@, n as nat),
{
    let mut s = directory.to_owned();
    s.append("/");
    s.append(stem);
    s.append(".");
    let num = decimal_string(n);
    s.append(num.as_str());
    s.append(".bfd");
    s
}

/// The first member answer from position i on that is not indeterminate;
/// absent when every member from i on is indeterminate.
pub open spec fn cascade_lookup_from(
    members: Seq<BFieldMember>,
    key: Seq<u8>,
    i: int,
) -> Option<BFieldVal>
    decreases members.len() - i,
{
    if i < 0 || i >= members.len() {
        Option::None
    } else {
        match members[i].lookup(key) {
            BFieldLookup::Indeterminate => cascade_lookup_from(members, key, i + 1),
            BFieldLookup::Found(v) => Option::Some(v),
            BFieldLookup::Absent => Option::None,
        }
    }
}

/// Every member before `pass` answers indeterminate for the key.
pub open spec fn all_indeterminate_before(
    members: Seq<BFieldMember>,
    key: Seq<u8>,
    pass: int,
) -> bool {
    forall|j: int|
        0 <= j < pass ==> (#[trigger] members[j].lookup(key)) is Indeterminate
}

/// The member `after` is `before` with the key's marker for `value` inserted.
pub open spec fn member_inserted(
    before: BFieldMember,
    after: BFieldMember,
    key: Seq<u8>,
    value: nat,
) -> bool {
    &&& after.params == before.params
    &&& after.filename == before.filename
    &&& after.writable() == before.writable()
    &&& after.bits() == inserted_upto(
        before.bits(),
        hash128_of(key),
        before.k_spec(),
        before.width_spec(),
        nth_pattern(value, before.kappa_spec()),
    )
}

/// The member `after` is `before` after `mask_or_insert` of the key and value.
pub open spec fn member_masked(
    before: BFieldMember,
    after: BFieldMember,
    key: Seq<u8>,
    value: nat,
) -> bool {
    &&& after.params == before.params
    &&& after.filename == before.filename
    &&& after.writable() == before.writable()
    &&& after.bits() == mask_or_insert_spec(
        before.bits(),
        hash128_of(key),
        before.k_spec(),
        before.width_spec(),
        before.kappa_spec(),
        value,
    ).1
}

/// What force-inserting leaves behind: members before `stop` were masked
/// without success, the member at `stop` (if any) was masked with success,
/// and everything after `stop` is untouched.
pub open spec fn force_insert_post(
    before: Seq<BFieldMember>,
    after: Seq<BFieldMember>,
    key: Seq<u8>,
    value: nat,
    stop: int,
) -> bool {
    &&& 0 <= stop <= before.len()
    &&& after.len() == before.len()
    &&& forall|j: int|
        0 <= j < stop ==> !member_mask_ok(#[trigger] before[j], key, value) && member_masked(
            before[j],
            after[j],
            key,
            value,
        )
    &&& (stop < before.len() ==> member_mask_ok(before[stop], key, value) && member_masked(
        before[stop],
        after[stop],
        key,
        value,
    ))
    &&& forall|j: int| stop < j < before.len() ==> after[j] == #[trigger] before[j]
}

/// Whether `mask_or_insert` of the key and value on this member succeeds.
pub open spec fn member_mask_ok(m: BFieldMember, key: Seq<u8>, value: nat) -> bool {
    mask_or_insert_spec(
        m.bits(),
        hash128_of(key),
        m.k_spec(),
        m.width_spec(),
        m.kappa_spec(),
        value,
    ).0
}

/// The B-field: the ordered members and a read-only flag that this boundary
/// enforces on every mutation.
///
/// A cascade may be read from many threads once building has finished;
/// writers must be serialized by the caller.
pub struct BField {
    /// The members, primary first.
    pub members: Vec<BFieldMember>,
    /// Set when the cascade was loaded read-only; mutation is then refused.
    pub read_only: bool,
}

impl BField {
    /// A well-formed cascade: at least one member, each well formed, and
    /// each writable exactly when the cascade is not read-only.
    pub open spec fn wf(&self) -> bool {
        &&& self.members@.len() >= 1
        &&& forall|i: int| 0 <= i < self.members@.len() ==> (#[trigger] self.members@[i]).wf()
        &&& forall|i: int|
            0 <= i < self.members@.len() ==> (#[trigger] self.members@[i]).writable()
                == !self.read_only
    }

    /// Builds a cascade of members with the given sizes, all sharing
    /// (k, marker width, marker weight).  Member i is backed by
    /// `<directory>/<filename>.<i>.bfd`, or held in memory when `in_memory`
    /// is set; only the primary member's header carries the user bytes.
    pub fn create(
        directory: &str,
        filename: &str,
        sizes: &Vec<usize>,
        n_hashes: u8,
        marker_width: u8,
        n_marker_bits: u8,
        in_memory: bool,
        other_params: Vec<u8>,
    ) -> (r: Result<BField, std::io::Error>)
        requires
            filename@.len() > 0,
            sizes@.len() >= 1,
            1 <= n_marker_bits <= 9,
            (n_marker_bits as nat) < (marker_width as nat),
            marker_width <= 128,
            1 <= n_hashes <= 16,
            forall|i: int|
                0 <= i < sizes@.len() ==> (#[trigger] sizes@[i]) >= 128 && (marker_width as nat)
                    < sizes@[i] as nat,
            other_params@.len() <= 65000,
        ensures
            r matches Ok(c) ==> {
                &&& c.wf()
                &&& !c.read_only
                &&& c.members@.len() == sizes@.len()
                &&& forall|i: int|
                    0 <= i < c.members@.len() ==> {
                        let m = #[trigger] c.members@[i];
                        &&& m.params.n_hashes == n_hashes
                        &&& m.params.marker_width == marker_width
                        &&& m.params.n_marker_bits == n_marker_bits
                        &&& m.size_spec() == sizes@[i] as nat
                        &&& (in_memory ==> m.bits() == Seq::new(
                            sizes@[i] as nat,
                            |b: int| false,
                        ))
                    }
                &&& c.members@[0].params.other == Option::Some(other_params)
                &&& forall|i: int|
                    1 <= i < c.members@.len() ==> (#[trigger] c.members@[i]).params.other
                        is None
            },
    {
        let mut members: Vec<BFieldMember> = Vec::new();
        let n = sizes.len();
        let file0 = member_path(directory, filename, 0);
        let m0 = match BFieldMember::create(
            file0.as_str(),
            in_memory,
            sizes[0],
            n_hashes,
            marker_width,
            n_marker_bits,
            Option::Some(other_params),
        ) {
            Ok(m) => m,
            Err(e) => {
                return Err(e);
            },
        };
        members.push(m0);
        let mut i: usize = 1;
        while i < n
            invariant
                1 <= i <= n,
                n == sizes@.len(),
                1 <= n_marker_bits <= 9,
                (n_marker_bits as nat) < (marker_width as nat),
                marker_width <= 128,
                1 <= n_hashes <= 16,
                forall|j: int|
                    0 <= j < sizes@.len() ==> (#[trigger] sizes@[j]) >= 128 && (marker_width
                        as nat) < sizes@[j] as nat,
                members@.len() == i as nat,
                forall|j: int|
                    0 <= j < i as nat ==> {
                        let m = #[trigger] members@[j];
                        &&& m.wf()
                        &&& m.writable()
                        &&& m.params.n_hashes == n_hashes
                        &&& m.params.marker_width == marker_width
                        &&& m.params.n_marker_bits == n_marker_bits
                        &&& m.size_spec() == sizes@[j] as nat
                        &&& (in_memory ==> m.bits() == Seq::new(
                            sizes@[j] as nat,
                            |b: int| false,
                        ))
                    },
                members@[0].params.other == Option::Some(other_params),
                forall|j: int|
                    1 <= j < i as nat ==> (#[trigger] members@[j]).params.other is None,
            decreases n - i,
        {
            let file = member_path(directory, filename, i);
            let m = match BFieldMember::create(
                file.as_str(),
                in_memory,
                sizes[i],
                n_hashes,
                marker_width,
                n_marker_bits,
                Option::None,
            ) {
                Ok(m) => m,
                Err(e) => {
                    return Err(e);
                },
            };
            members.push(m);
            i = i + 1;
        }
        Ok(BField { members, read_only: false })
    }

    /// Loads a cascade from the path of its primary member file, which must
    /// end in `0.bfd`, probing sibling files until one is missing.
    pub fn load(main_db_path: &str, read_only: bool) -> (r: Result<BField, std::io::Error>)
        requires
            main_db_path.spec_bytes().len() >= 5,
            main_db_path.spec_bytes()[main_db_path.spec_bytes().len() - 5] == 48,
            main_db_path.spec_bytes()[main_db_path.spec_bytes().len() - 4] == 46,
            main_db_path.spec_bytes()[main_db_path.spec_bytes().len() - 3] == 98,
            main_db_path.spec_bytes()[main_db_path.spec_bytes().len() - 2] == 102,
            main_db_path.spec_bytes()[main_db_path.spec_bytes().len() - 1] == 100,
        ensures
            r matches Ok(c) ==> c.wf() && c.read_only == read_only,
    {
        let plen = main_db_path.len();
        if plen < 5 {
            return Err(err_not_found("cascade path is too short"));
        }
        if !main_db_path.is_char_boundary(plen - 5) {
            return Err(err_not_found("cascade path does not end in a member suffix"));
        }
        let (prefix, _suffix) = main_db_path.split_at(plen - 5);
        let mut members: Vec<BFieldMember> = Vec::new();
        let mut n: usize = 0;
        let mut stop = false;
        while !stop && n < usize::MAX
            invariant
                members@.len() <= n as nat,
                forall|i: int|
                    0 <= i < members@.len() ==> (#[trigger] members@[i]).wf(),
                forall|i: int|
                    0 <= i < members@.len() ==> (#[trigger] members@[i]).writable()
                        == !read_only,
            decreases usize::MAX - n, (if stop { 0int } else { 1int }),
        {
            let mut p = prefix.to_owned();
            let num = decimal_string(n);
            p.append(num.as_str());
            p.append(".bfd");
            if !path_exists(p.as_str()) {
                stop = true;
            } else {
                match BFieldMember::open(p.as_str(), read_only) {
                    Ok(m) => {
                        members.push(m);
                        n = n + 1;
                    },
                    Err(e) => {
                        return Err(e);
                    },
                }
            }
        }
        if members.len() == 0 {
            return Err(err_not_found("no cascade member files found at the given path"));
        }
        Ok(BField { members, read_only })
    }

    /// Writes every in-memory member to its configured file, keeping order
    /// and the read-only flag.  The members themselves are unchanged, so
    /// every lookup answers exactly as before the call.
    pub fn persist_to_disk(self) -> (r: Result<BField, std::io::Error>)
        requires
            self.wf(),
        ensures
            r matches Ok(c) ==> c.members@ == self.members@ && c.read_only == self.read_only,
    {
        let read_only = self.read_only;
        let mut rest = self.members;
        let ghost orig = rest@;
        let mut out: Vec<BFieldMember> = Vec::new();
        while rest.len() > 0
            invariant
                out@ + rest@ == orig,
                forall|i: int| 0 <= i < orig.len() ==> (#[trigger] orig[i]).wf(),
            decreases rest@.len(),
        {
            let m = rest.remove(0);
            proof {
                assert(orig[out@.len() as int] == m);
            }
            match m.persist_to_disk() {
                Ok(m2) => {
                    out.push(m2);
                    proof {
                        assert(out@ + rest@ =~= orig);
                    }
                },
                Err(e) => {
                    return Err(e);
                },
            }
        }
        proof {
            assert(out@ =~= orig);
        }
        Ok(BField { members: out, read_only })
    }

    /// (k, marker width, marker weight, and the size of each member).
    pub fn build_params(&self) -> (r: (u8, u8, u8, Vec<usize>))
        requires
            self.wf(),
        ensures
            r.0 == self.members@[0].params.n_hashes,
            r.1 == self.members@[0].params.marker_width,
            r.2 == self.members@[0].params.n_marker_bits,
            r.3@.len() == self.members@.len(),
            forall|i: int|
                0 <= i < self.members@.len() ==> (#[trigger] r.3@[i]) as nat
                    == self.members@[i].size_spec(),
    {
        let n = self.members.len();
        let mut sizes: Vec<usize> = Vec::new();
        let mut i: usize = 0;
        while i < n
            invariant
                i <= n,
                n == self.members@.len(),
                self.wf(),
                sizes@.len() == i as nat,
                forall|j: int|
                    0 <= j < i as nat ==> (#[trigger] sizes@[j]) as nat
                        == self.members@[j].size_spec(),
            decreases n - i,
        {
            let info = self.members[i].info();
            sizes.push(info.0);
            i = i + 1;
        }
        let first = self.members[0].info();
        (first.1, first.2, first.3, sizes)
    }

    /// The user bytes given at build time, carried by the primary member.
    pub fn params(&self) -> (r: &Option<Vec<u8>>)
        requires
            self.wf(),
        ensures
            *r == self.members@[0].params.other,
    {
        &self.members[0].params.other
    }

    /// Overwrites the primary member's user bytes in memory without touching
    /// any file: for annotating stores whose headers never carried them.
    pub fn mock_params(&mut self, params: Vec<u8>)
        requires
            old(self).wf(),
            params@.len() <= 65000,
        ensures
            final(self).wf(),
            final(self).read_only == old(self).read_only,
            final(self).members@.len() == old(self).members@.len(),
            final(self).members@[0].params.other == Option::Some(params),
            final(self).members@[0].params.n_hashes == old(self).members@[0].params.n_hashes,
            final(self).members@[0].params.marker_width == old(self).members@[0].params.marker_width,
            final(self).members@[0].params.n_marker_bits == old(self).members@[0].params.n_marker_bits,
            final(self).members@[0].bits() == old(self).members@[0].bits(),
            final(self).members@[0].filename == old(self).members@[0].filename,
            forall|i: int|
                1 <= i < old(self).members@.len() ==> final(self).members@[i] == old(self).members@[i],
    {
        let mut m = self.members.remove(0);
        m.params.other = Option::Some(params);
        self.members.insert(0, m);
        proof {
            assert(final(self).members@ =~= old(self).members@.update(
                0,
                final(self).members@[0],
            ));
        }
    }

    /// Repairs the key's slot after the build: walks the members in order,
    /// calling `mask_or_insert` on each, and stops at the first that reports
    /// success.  May poison slots and so introduce false negatives; the
    /// caller accepts that risk.
    pub fn force_insert(&mut self, key: &[u8], value: BFieldVal)
        requires
            old(self).wf(),
            !old(self).read_only,
            forall|i: int|
                0 <= i < old(self).members@.len() ==> (value as nat) < binom(
                    (#[trigger] old(self).members@[i]).width_spec(),
                    old(self).members@[i].kappa_spec(),
                ),
        ensures
            final(self).wf(),
            final(self).read_only == old(self).read_only,
            final(self).members@.len() == old(self).members@.len(),
            exists|stop: int|
                force_insert_post(
                    old(self).members@,
                    final(self).members@,
                    key@,
                    value as nat,
                    stop,
                ),
    {
        let n = self.members.len();
        let mut i: usize = 0;
        while i < n
            invariant
                i <= n,
                n == old(self).members@.len(),
                self.members@.len() == n as nat,
                self.read_only == old(self).read_only,
                !old(self).read_only,
                forall|j: int|
                    0 <= j < n as nat ==> (value as nat) < binom(
                        (#[trigger] old(self).members@[j]).width_spec(),
                        old(self).members@[j].kappa_spec(),
                    ),
                forall|j: int|
                    0 <= j < i as nat ==> !member_mask_ok(
                        #[trigger] old(self).members@[j],
                        key@,
                        value as nat,
                    ) && member_masked(
                        old(self).members@[j],
                        self.members@[j],
                        key@,
                        value as nat,
                    ),
                forall|j: int|
                    i as nat <= j < n as nat ==> self.members@[j] == (#[trigger] old(self).members@[j]),
                forall|j: int|
                    0 <= j < self.members@.len() ==> (#[trigger] self.members@[j]).wf(),
                forall|j: int|
                    0 <= j < self.members@.len() ==> (#[trigger] self.members@[j]).writable()
                        == !self.read_only,
            decreases n - i,
        {
            let ghost before_seq = self.members@;
            proof {
                assert(before_seq[i as int] == old(self).members@[i as int]);
            }
            let mut m = self.members.remove(i);
            let done = m.mask_or_insert(key, value);
            self.members.insert(i, m);
            proof {
                assert(self.members@ =~= before_seq.update(i as int, self.members@[i as int]));
            }
            if done {
                proof {
                    assert(force_insert_post(
                        old(self).members@,
                        self.members@,
                        key@,
                        value as nat,
                        i as int,
                    ));
                }
                return ;
            }
            i = i + 1;
        }
        proof {
            assert(force_insert_post(
                old(self).members@,
                self.members@,
                key@,
                value as nat,
                n as int,
            ));
        }
    }

    /// Inserts the key's value into the member of the given pass, unless an
    /// earlier member already resolves the key; the answer says whether the
    /// insertion happened.
    pub fn insert(&mut self, key: &[u8], value: BFieldVal, pass: usize) -> (r: bool)
        requires
            old(self).wf(),
            !old(self).read_only,
            (pass as nat) < old(self).members@.len(),
            (value as nat) < binom(
                old(self).members@[pass as int].width_spec(),
                old(self).members@[pass as int].kappa_spec(),
            ),
        ensures
            final(self).wf(),
            final(self).read_only == old(self).read_only,
            final(self).members@.len() == old(self).members@.len(),
            r == all_indeterminate_before(old(self).members@, key@, pass as int),
            !r ==> final(self).members@ == old(self).members@,
            r ==> member_inserted(
                old(self).members@[pass as int],
                final(self).members@[pass as int],
                key@,
                value as nat,
            ),
            r ==> forall|j: int|
                0 <= j < old(self).members@.len() && j != pass as int ==> final(self).members@[j] == (#[trigger] old(self).members@[j]),
    {
        let mut j: usize = 0;
        while j < pass
            invariant
                j <= pass,
                (pass as nat) < old(self).members@.len(),
                self == old(self),
                old(self).wf(),
                forall|jj: int|
                    0 <= jj < j as nat ==> (#[trigger] old(self).members@[jj].lookup(key@))
                        is Indeterminate,
            decreases pass - j,
        {
            let m = &self.members[j];
            match m.get(key) {
                BFieldLookup::Indeterminate => {
                    j = j + 1;
                },
                BFieldLookup::Found(_) => {
                    return false;
                },
                BFieldLookup::Absent => {
                    return false;
                },
            }
        }
        let mut m = self.members.remove(pass);
        m.insert(key, value);
        self.members.insert(pass, m);
        proof {
            assert(final(self).members@ =~= old(self).members@.update(
                pass as int,
                final(self).members@[pass as int],
            ));
        }
        true
    }

    /// The value of the key: the first member answer that is not
    /// indeterminate, with a fully indeterminate cascade reported as absent.
    pub fn get(&self, key: &[u8]) -> (r: Option<BFieldVal>)
        requires
            self.wf(),
        ensures
            r == cascade_lookup_from(self.members@, key@, 0),
    {
        let n = self.members.len();
        let mut i: usize = 0;
        while i < n
            invariant
                i <= n,
                n == self.members@.len(),
                self.wf(),
                cascade_lookup_from(self.members@, key@, 0) == cascade_lookup_from(
                    self.members@,
                    key@,
                    i as int,
                ),
            decreases n - i,
        {
            let m = &self.members[i];
            match m.get(key) {
                BFieldLookup::Indeterminate => {
                    i = i + 1;
                },
                BFieldLookup::Found(value) => {
                    return Option::Some(value);
                },
                BFieldLookup::Absent => {
                    return Option::None;
                },
            }
        }
        Option::None
    }

    /// The (size, k, marker width, marker weight) of every member in order.
    pub fn info(&self) -> (r: Vec<(usize, u8, u8, u8)>)
        requires
            self.wf(),
        ensures
            r@.len() == self.members@.len(),
            forall|i: int|
                0 <= i < self.members@.len() ==> {
                    let t = #[trigger] r@[i];
                    &&& t.0 as nat == self.members@[i].size_spec()
                    &&& t.1 == self.members@[i].params.n_hashes
                    &&& t.2 == self.members@[i].params.marker_width
                    &&& t.3 == self.members@[i].params.n_marker_bits
                },
    {
        let n = self.members.len();
        let mut out: Vec<(usize, u8, u8, u8)> = Vec::new();
        let mut i: usize = 0;
        while i < n
            invariant
                i <= n,
                n == self.members@.len(),
                self.wf(),
                out@.len() == i as nat,
                forall|j: int|
                    0 <= j < i as nat ==> {
                        let t = #[trigger] out@[j];
                        &&& t.0 as nat == self.members@[j].size_spec()
                        &&& t.1 == self.members@[j].params.n_hashes
                        &&& t.2 == self.members@[j].params.marker_width
                        &&& t.3 == self.members@[j].params.n_marker_bits
                    },
            decreases n - i,
        {
            out.push(self.members[i].info());
            i = i + 1;
        }
        out
    }
}

} // verus!
