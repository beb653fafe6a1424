use vstd::prelude::*;

verus! {

/// One file transfer: a source path template (`from`, in which the marker
/// `$casefile` stands for the case's input file) and the destination path
/// (`to`) inside the sandbox or the results directory.
#[derive(Debug, Clone, PartialEq)]
pub struct FileTransferConfig {
    pub from: String,
    pub to: String,
}

/// Settings for the local backend: optional pre/post shell hooks, the
/// parallelism bound, and the file transfers in and out of the sandbox.
#[derive(Debug, Clone, PartialEq)]
pub struct LocalConfig {
    pub pre: Option<String>,
    pub parallel: usize,
    pub send: Vec<FileTransferConfig>,
    pub collect: Vec<FileTransferConfig>,
    pub post: Option<String>,
}

/// Settings for the remote backend: as for the local one, plus the name of
/// the remote function to invoke once per case.
#[derive(Debug, Clone, PartialEq)]
pub struct LambdaConfig {
    pub pre: Option<String>,
    pub parallel: usize,
    pub function_name: String,
    pub send: Vec<FileTransferConfig>,
    pub collect: Vec<FileTransferConfig>,
    pub post: Option<String>,
}

/// The classification settings: which collected files to parse, one regular
/// expression per numeric metric together with an integer scale factor, and
/// one regular expression per outcome flag.
#[derive(Debug, Clone, PartialEq)]
pub struct ParseResultConfig {
    pub files: Vec<String>,
    pub time_regex: String,
    pub time_multiplier: i64,
    pub score_regex: String,
    pub score_multiplier: i64,
    pub rate_regex: String,
    pub rate_multiplier: i64,
    pub force_ac_regex: String,
    pub ie_regex: String,
    pub ce_regex: String,
    pub re_regex: String,
    pub qle_regex: String,
    pub ole_regex: String,
    pub wa_regex: String,
    pub tle_regex: String,
    pub mle_regex: String,
}

/// The template text with every occurrence of the marker replaced, scanned
/// left to right without overlap.
pub open spec fn replace_spec(s: Seq<char>, pat: Seq<char>, rep: Seq<char>) -> Seq<char>
    decreases s.len(),
{
    if pat.len() == 0 || s.len() < pat.len() {
        s
    } else if s.take(pat.len() as int) == pat {
        rep + replace_spec(s.skip(pat.len() as int), pat, rep)
    } else {
        seq![s[0]] + replace_spec(s.skip(1), pat, rep)
    }
}

/// Whether the pattern stands in the text at the position.
fn matches_at(s: &str, i: usize, pat: &str) -> (r: bool)
    requires
        i + pat@.len() <= s@.len(),
    ensures
        r == (s@.subrange(i as int, i + pat@.len()) == pat@),
{
    let plen = pat.unicode_len();
    let slen = s.unicode_len();
    let mut k: usize = 0;
    while k < plen
        invariant
            k <= plen,
            plen == pat@.len(),
            slen == s@.len(),
            i + plen <= s@.len(),
            forall|m: int| 0 <= m < k ==> s@[i + m] == pat@[m],
        decreases plen - k,
    {
        if s.get_char(i + k) != pat.get_char(k) {
            proof {
                if s@.subrange(i as int, i + pat@.len()) == pat@ {
                    assert(s@.subrange(i as int, i + pat@.len())[k as int] == s@[i + k]);
                }
            }
            return false;
        }
        k += 1;
    }
    proof {
        assert(s@.subrange(i as int, i + pat@.len()) =~= pat@);
    }
    true
}

/// The template with every `$casefile` marker replaced by the case file's
/// path.
pub fn substitute_casefile(template: &str, casefile: &str) -> (r: String)
    ensures
        r@ == replace_spec(template@, "$casefile"@, casefile@),
{
    let pat = "$casefile";
    proof {
        reveal_strlit("$casefile");
    }
    let plen = pat.unicode_len();
    let n = template.unicode_len();
    let mut out = String::new();
    let mut i: usize = 0;
    proof {
        assert(template@.skip(0) =~= template@);
        assert(Seq::<char>::empty() + replace_spec(template@, "$casefile"@, casefile@)
            =~= replace_spec(template@, "$casefile"@, casefile@));
    }
    while i < n
        invariant
            i <= n,
            n == template@.len(),
            pat@ == "$casefile"@,
            plen == pat@.len(),
            plen == 9,
            out@ + replace_spec(template@.skip(i as int), pat@, casefile@) == replace_spec(
                template@,
                pat@,
                casefile@,
            ),
        decreases n - i,
    {
        if plen <= n - i && matches_at(template, i, pat) {
            out.append(casefile);
            proof {
                let rem = template@.skip(i as int);
                assert(rem.take(pat@.len() as int) =~= template@.subrange(
                    i as int,
                    i + pat@.len(),
                ));
                assert(rem.skip(pat@.len() as int) =~= template@.skip(i + plen));
                assert(replace_spec(rem, pat@, casefile@) == casefile@ + replace_spec(
                    template@.skip(i + plen),
                    pat@,
                    casefile@,
                ));
                assert(out@ + replace_spec(template@.skip(i + plen), pat@, casefile@)
                    =~= replace_spec(template@, pat@, casefile@));
            }
            i += plen;
        } else {
            let c = template.substring_char(i, i + 1);
            out.append(c);
            proof {
                let rem = template@.skip(i as int);
                assert(c@ =~= seq![template@[i as int]]);
                assert(rem.skip(1) =~= template@.skip(i + 1));
                assert(rem[0] == template@[i as int]);
                if rem.len() < pat@.len() {
                    assert(replace_spec(rem, pat@, casefile@) == rem);
                    assert(replace_spec(rem.skip(1), pat@, casefile@) == rem.skip(1));
                    assert(rem =~= seq![rem[0]] + rem.skip(1));
                } else {
                    assert(rem.take(pat@.len() as int) =~= template@.subrange(
                        i as int,
                        i + pat@.len(),
                    ));
                    assert(replace_spec(rem, pat@, casefile@) == seq![rem[0]] + replace_spec(
                        rem.skip(1),
                        pat@,
                        casefile@,
                    ));
                }
                assert(out@ + replace_spec(template@.skip(i + 1), pat@, casefile@) =~= replace_spec(
                    template@,
                    pat@,
                    casefile@,
                ));
            }
            i += 1;
        }
    }
    proof {
        assert(template@.skip(n as int) =~= Seq::<char>::empty());
        assert(out@ + Seq::<char>::empty() =~= out@);
    }
    out
}

impl FileTransferConfig {
    /// The transfer's source path with the case-file marker substituted.
    pub fn source_for(&self, casefile: &str) -> (r: String)
        ensures
            r@ == replace_spec(self.from@, "$casefile"@, casefile@),
    {
        substitute_casefile(self.from.as_str(), casefile)
    }
}

/// The whole run configuration, read-only for the run's duration.
#[derive(Debug, Clone, PartialEq)]
pub struct Config {
    pub subm_id: u32,
    pub case_dir: String,
    pub allow_non_ac: usize,
    pub local: LocalConfig,
    pub lambda: LambdaConfig,
    pub parse_result: ParseResultConfig,
}

} // verus!
