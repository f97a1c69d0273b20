//! Turning directory entries into release candidates.
//!
//! A candidate is a signature file: its name ends in `.sig`, the name without
//! that suffix splits on `_` into at least two fields, and the second field
//! begins with a numeric segment.  The candidate's version is the longest
//! leading run of dot-separated numeric segments of that field, so
//! `app_1.2.0.dmg.sig` carries version `1.2.0`.  Anything else is skipped,
//! never an error.

use vstd::prelude::*;

use crate::version::{
    is_valid_segment, join_dots, lemma_join_valid, seg_valid, split_char, split_on, valid_version,
};

verus! {

/// Ghost image of a [`Candidate`].
pub struct CandidateView {
    pub file_name: Seq<char>,
    pub version: Seq<char>,
}

/// A release artifact's signature file, with the version its name carries.
pub struct Candidate {
    pub file_name: String,
    pub version: String,
}

impl View for Candidate {
    type V = CandidateView;

    open spec fn view(&self) -> CandidateView {
        CandidateView { file_name: self.file_name@, version: self.version@ }
    }
}

/// The name ends in `.sig` with at least one character before it.
pub open spec fn has_sig_suffix(name: Seq<char>) -> bool {
    &&& name.len() >= 5
    &&& name[name.len() - 4] == '.'
    &&& name[name.len() - 3] == 's'
    &&& name[name.len() - 2] == 'i'
    &&& name[name.len() - 1] == 'g'
}

/// The artifact name: the file name with the `.sig` suffix removed.
pub open spec fn sig_base(name: Seq<char>) -> Seq<char> {
    name.subrange(0, name.len() - 4)
}

/// How many leading pieces are valid numeric segments.
pub open spec fn valid_prefix_len(fields: Seq<Seq<char>>) -> int
    decreases fields.len(),
{
    if fields.len() == 0 {
        0
    } else if !seg_valid(fields[0]) {
        0
    } else {
        1 + valid_prefix_len(fields.drop_first())
    }
}

pub proof fn lemma_valid_prefix_props(fields: Seq<Seq<char>>)
    ensures
        0 <= valid_prefix_len(fields) <= fields.len(),
        forall|j: int| 0 <= j < valid_prefix_len(fields) ==> seg_valid(#[trigger] fields[j]),
    decreases fields.len(),
{
    if fields.len() > 0 && seg_valid(fields[0]) {
        let rest = fields.drop_first();
        lemma_valid_prefix_props(rest);
        assert forall|j: int| 0 <= j < valid_prefix_len(fields) implies seg_valid(
            #[trigger] fields[j],
        ) by {
            if j > 0 {
                assert(fields[j] == rest[j - 1]);
            }
        }
    }
}

/// The prefix length is pinned by scanning: all pieces before it are valid,
/// and the piece at it (if any) is not.
pub proof fn lemma_valid_prefix_char(fields: Seq<Seq<char>>, k: int)
    requires
        0 <= k <= fields.len(),
        forall|j: int| 0 <= j < k ==> seg_valid(#[trigger] fields[j]),
        k == fields.len() || !seg_valid(fields[k]),
    ensures
        valid_prefix_len(fields) == k,
    decreases k,
{
    if k == 0 {
    } else {
        lemma_valid_prefix_char(fields.drop_first(), k - 1);
    }
}

/// What a directory entry's name yields: `None` for anything that is not a
/// well-formed signature-file name, otherwise the candidate.
pub open spec fn candidate_of(name: Seq<char>) -> Option<CandidateView> {
    if !has_sig_suffix(name) {
        None
    } else {
        let fields = split_on(sig_base(name), '_');
        if fields.len() < 2 {
            None
        } else {
            let vsegs = split_on(fields[1], '.');
            let k = valid_prefix_len(vsegs);
            if k == 0 {
                None
            } else {
                Some(
                    CandidateView {
                        file_name: name,
                        version: join_dots(vsegs.subrange(0, k)),
                    },
                )
            }
        }
    }
}

/// A candidate's version is always a syntactically valid dotted numeric
/// version, so it participates in comparisons without ever hitting the
/// conservative fallback.
pub proof fn lemma_candidate_version_valid(name: Seq<char>)
    requires
        candidate_of(name) is Some,
    ensures
        valid_version(candidate_of(name).unwrap().version),
{
    let fields = split_on(sig_base(name), '_');
    let vsegs = split_on(fields[1], '.');
    let k = valid_prefix_len(vsegs);
    lemma_valid_prefix_props(vsegs);
    let taken = vsegs.subrange(0, k);
    assert(forall|j: int| 0 <= j < taken.len() ==> seg_valid(#[trigger] taken[j]));
    lemma_join_valid(taken);
}

/// Every candidate a listing yields is well formed: its file name is the
/// directory entry's (a signature file's name), and its version is a valid
/// dotted numeric version, so it participates in comparisons without ever
/// hitting the conservative fallback.
pub proof fn lemma_candidates_wf(listing: Seq<Seq<char>>)
    ensures
        forall|j: int|
            0 <= j < candidates_of(listing).len() ==> {
                &&& has_sig_suffix(#[trigger] candidates_of(listing)[j].file_name)
                &&& valid_version(candidates_of(listing)[j].version)
            },
    decreases listing.len(),
{
    if listing.len() > 0 {
        let front = candidates_of(listing.drop_last());
        lemma_candidates_wf(listing.drop_last());
        match candidate_of(listing.last()) {
            Some(c) => {
                lemma_candidate_version_valid(listing.last());
                assert(c.file_name == listing.last());
                assert(has_sig_suffix(c.file_name));
                assert(valid_version(c.version));
                assert(candidates_of(listing) == front.push(c));
                assert forall|j: int| 0 <= j < candidates_of(listing).len() implies {
                    &&& has_sig_suffix(#[trigger] candidates_of(listing)[j].file_name)
                    &&& valid_version(candidates_of(listing)[j].version)
                } by {
                    if j < front.len() {
                        assert(candidates_of(listing)[j] == front[j]);
                        assert(has_sig_suffix(front[j].file_name));
                    } else {
                        assert(candidates_of(listing)[j] == c);
                    }
                }
            },
            None => {
                assert(candidates_of(listing) == front);
            },
        }
    }
}

/// Count the leading pieces that are valid numeric segments.
fn count_valid_segments(parts: &Vec<String>) -> (k: usize)
    ensures
        k <= parts.deep_view().len(),
        forall|j: int| 0 <= j < k ==> seg_valid(#[trigger] parts.deep_view()[j]),
        k < parts.deep_view().len() ==> !seg_valid(parts.deep_view()[k as int]),
{
    let mut k: usize = 0;
    while k < parts.len()
        invariant
            k <= parts.len(),
            forall|j: int| 0 <= j < k ==> seg_valid(#[trigger] parts.deep_view()[j]),
        decreases parts.len() - k,
    {
        proof {
            assert(parts.deep_view()[k as int] == parts@[k as int]@);
        }
        if !is_valid_segment(parts[k].as_str()) {
            return k;
        }
        k = k + 1;
    }
    k
}

/// Parse one directory entry's name.  Returns `None` exactly where
/// [`candidate_of`] does: a malformed name is skipped, never an error.
pub fn parse_candidate(name: &str) -> (r: Option<Candidate>)
    ensures
        r is Some <==> candidate_of(name@) is Some,
        r matches Some(c) ==> c@ == candidate_of(name@).unwrap(),
{
    let n = name.unicode_len();
    if n < 5 {
        return None;
    }
    if !(name.get_char(n - 4) == '.' && name.get_char(n - 3) == 's' && name.get_char(n - 2) == 'i'
        && name.get_char(n - 1) == 'g') {
        return None;
    }
    let base = name.substring_char(0, n - 4);
    proof {
        assert(base@ == sig_base(name@));
    }
    let fields = split_char(base, '_');
    if fields.len() < 2 {
        return None;
    }
    let token = fields[1].as_str();
    proof {
        assert(token@ == split_on(sig_base(name@), '_')[1]);
    }
    let vsegs = split_char(token, '.');
    let k = count_valid_segments(&vsegs);
    proof {
        lemma_valid_prefix_char(vsegs.deep_view(), k as int);
    }
    if k == 0 {
        return None;
    }
    let ghost gsegs = vsegs.deep_view();
    let mut version = String::new();
    let mut i: usize = 0;
    while i < k
        invariant
            i <= k,
            0 < k <= vsegs.len(),
            gsegs == vsegs.deep_view(),
            gsegs == split_on(split_on(sig_base(name@), '_')[1], '.'),
            version@ == join_dots(gsegs.subrange(0, i as int)),
        decreases k - i,
    {
        if i > 0 {
            version.append(".");
        }
        version.append(vsegs[i].as_str());
        proof {
            reveal_strlit(".");
            assert("."@ =~= seq!['.']);
            let taken = gsegs.subrange(0, (i + 1) as int);
            assert(taken.drop_last() =~= gsegs.subrange(0, i as int));
            assert(taken.last() == gsegs[i as int]);
            assert(version@ =~= join_dots(taken));
        }
        i = i + 1;
    }
    Some(Candidate { file_name: name.to_owned(), version })
}

pub open spec fn release_dir_of(
    root: Seq<char>,
    app: Seq<char>,
    platform: Seq<char>,
    arch: Seq<char>,
) -> Seq<char> {
    root + "/releases/"@ + app + "/latest/"@ + platform + "/"@ + arch + "/"@
}

/// The directory that holds the published artifacts for one
/// (app, platform, arch) tuple, under the configured release root.
pub fn release_dir_path(root: &str, app: &str, platform: &str, arch: &str) -> (r: String)
    ensures
        r@ == release_dir_of(root@, app@, platform@, arch@),
{
    let mut s = root.to_owned();
    s.append("/releases/");
    s.append(app);
    s.append("/latest/");
    s.append(platform);
    s.append("/");
    s.append(arch);
    s.append("/");
    proof {
        assert(s@ =~= release_dir_of(root@, app@, platform@, arch@));
    }
    s
}

/// What a whole directory listing yields, in order, skipping everything that
/// is not a candidate.
pub open spec fn candidates_of(listing: Seq<Seq<char>>) -> Seq<CandidateView>
    decreases listing.len(),
{
    if listing.len() == 0 {
        Seq::empty()
    } else {
        let front = candidates_of(listing.drop_last());
        match candidate_of(listing.last()) {
            Some(c) => front.push(c),
            None => front,
        }
    }
}

/// Scan a directory listing for release candidates.  Malformed entries are
/// dropped; an empty result is an ordinary outcome, not an error.
pub fn scan_candidates(listing: &Vec<String>) -> (r: Vec<Candidate>)
    ensures
        r@.map_values(|c: Candidate| c@) == candidates_of(listing.deep_view()),
{
    let mut out: Vec<Candidate> = Vec::new();
    let mut i: usize = 0;
    proof {
        assert(listing.deep_view().subrange(0, 0) =~= Seq::<Seq<char>>::empty());
        assert(out@.map_values(|c: Candidate| c@) =~= candidates_of(
            listing.deep_view().subrange(0, 0),
        ));
    }
    while i < listing.len()
        invariant
            i <= listing.len(),
            listing.deep_view().len() == listing.len(),
            out@.map_values(|c: Candidate| c@) == candidates_of(
                listing.deep_view().subrange(0, i as int),
            ),
        decreases listing.len() - i,
    {
        let ghost pre = listing.deep_view().subrange(0, i as int);
        let ghost post = listing.deep_view().subrange(0, i + 1);
        proof {
            assert(post.drop_last() =~= pre);
            assert(post.last() == listing.deep_view()[i as int]);
            assert(listing.deep_view()[i as int] == listing@[i as int]@);
        }
        match parse_candidate(listing[i].as_str()) {
            Some(c) => {
                let ghost old_out = out@;
                out.push(c);
                proof {
                    assert(out@.map_values(|c: Candidate| c@) =~= old_out.map_values(
                        |c: Candidate| c@,
                    ).push(c@));
                }
            },
            None => {},
        }
        i = i + 1;
    }
    proof {
        assert(listing.deep_view().subrange(0, listing.len() as int) =~= listing.deep_view());
    }
    out
}

} // verus!
