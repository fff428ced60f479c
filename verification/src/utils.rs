//! Validation of user-supplied names and paths, and the character-sequence
//! helpers it rests on.
//!
//! Paths and names are examined as sequences of characters.  Backslashes are
//! treated as path separators wherever a check is meant to be
//! platform-independent, and upper-case ASCII letters fold to lower case
//! where a check is case-insensitive.

use vstd::prelude::*;
use vstd::string::StrSliceExecFns;
use vstd::string::StringExecFns;
use crate::config::ConfigError;

verus! {

/// Lower-cases one ASCII letter; every other character is unchanged.
pub open spec fn lower_char(c: char) -> char {
    match c {
        'A' => 'a', 'B' => 'b', 'C' => 'c', 'D' => 'd', 'E' => 'e', 'F' => 'f',
        'G' => 'g', 'H' => 'h', 'I' => 'i', 'J' => 'j', 'K' => 'k', 'L' => 'l',
        'M' => 'm', 'N' => 'n', 'O' => 'o', 'P' => 'p', 'Q' => 'q', 'R' => 'r',
        'S' => 's', 'T' => 't', 'U' => 'u', 'V' => 'v', 'W' => 'w', 'X' => 'x',
        'Y' => 'y', 'Z' => 'z', _ => c,
    }
}

/// Turns a backslash into a forward slash; every other character is
/// unchanged.
pub open spec fn norm_char(c: char) -> char {
    if c == '\\' { '/' } else { c }
}

/// ASCII lower-casing of a whole sequence.
pub open spec fn lower(s: Seq<char>) -> Seq<char> {
    s.map_values(|c: char| lower_char(c))
}

/// Separator normalization of a whole sequence.
pub open spec fn norm(s: Seq<char>) -> Seq<char> {
    s.map_values(|c: char| norm_char(c))
}

/// `pat` occurs in `s` as a contiguous subsequence.
pub open spec fn has_substr(s: Seq<char>, pat: Seq<char>) -> bool {
    exists|i: int| 0 <= i && i + pat.len() <= s.len() && #[trigger] s.subrange(i, i + pat.len()) == pat
}

fn to_lower_char(c: char) -> (r: char)
    ensures
        r == lower_char(c),
{
    match c {
        'A' => 'a', 'B' => 'b', 'C' => 'c', 'D' => 'd', 'E' => 'e', 'F' => 'f',
        'G' => 'g', 'H' => 'h', 'I' => 'i', 'J' => 'j', 'K' => 'k', 'L' => 'l',
        'M' => 'm', 'N' => 'n', 'O' => 'o', 'P' => 'p', 'Q' => 'q', 'R' => 'r',
        'S' => 's', 'T' => 't', 'U' => 'u', 'V' => 'v', 'W' => 'w', 'X' => 'x',
        'Y' => 'y', 'Z' => 'z', _ => c,
    }
}

/// Compares a name against a pattern by their characters.
pub fn eq_str(a: &String, b: &str) -> (r: bool)
    ensures
        r == (a@ == b@),
{
    *a == String::from_str(b)
}

/// The characters of `s`, in order.
pub fn str_chars(s: &str) -> (r: Vec<char>)
    ensures
        r@ == s@,
{
    let n: usize = s.unicode_len();
    let mut r: Vec<char> = Vec::new();
    let mut i: usize = 0;
    while i < n
        invariant
            i <= n,
            n == s@.len(),
            r@ == s@.subrange(0, i as int),
        decreases n - i,
    {
        r.push(s.get_char(i));
        proof {
            assert(r@ =~= s@.subrange(0, i + 1 as int));
        }
        i = i + 1;
    }
    proof {
        assert(s@.subrange(0, n as int) =~= s@);
    }
    r
}

/// ASCII-lower-cases every character.
pub fn lower_vec(v: &Vec<char>) -> (r: Vec<char>)
    ensures
        r@ == lower(v@),
{
    let mut r: Vec<char> = Vec::new();
    let mut i: usize = 0;
    while i < v.len()
        invariant
            i <= v@.len(),
            r@ == lower(v@.subrange(0, i as int)),
        decreases v@.len() - i,
    {
        r.push(to_lower_char(v[i]));
        proof {
            assert(r@ =~= lower(v@.subrange(0, i + 1 as int)));
        }
        i = i + 1;
    }
    proof {
        assert(v@.subrange(0, v@.len() as int) =~= v@);
    }
    r
}

/// Normalizes every separator.
pub fn norm_vec(v: &Vec<char>) -> (r: Vec<char>)
    ensures
        r@ == norm(v@),
{
    let mut r: Vec<char> = Vec::new();
    let mut i: usize = 0;
    while i < v.len()
        invariant
            i <= v@.len(),
            r@ == norm(v@.subrange(0, i as int)),
        decreases v@.len() - i,
    {
        let c = v[i];
        if c == '\\' {
            r.push('/');
        } else {
            r.push(c);
        }
        proof {
            assert(r@ =~= norm(v@.subrange(0, i + 1 as int)));
        }
        i = i + 1;
    }
    proof {
        assert(v@.subrange(0, v@.len() as int) =~= v@);
    }
    r
}

/// Whether `pat` occurs at position `i` of `v`.
fn matches_at(v: &Vec<char>, i: usize, pat: &Vec<char>) -> (r: bool)
    requires
        i + pat@.len() <= v@.len(),
    ensures
        r == (v@.subrange(i as int, i + pat@.len()) == pat@),
{
    let vlen: usize = v.len();
    let mut k: usize = 0;
    while k < pat.len()
        invariant
            k <= pat@.len(),
            i + pat@.len() <= v@.len(),
            vlen == v@.len(),
            forall|j: int| 0 <= j < k ==> v@[i + j] == pat@[j],
        decreases pat@.len() - k,
    {
        if v[i + k] != pat[k] {
            proof {
                assert(v@.subrange(i as int, i + pat@.len())[k as int] != pat@[k as int]);
            }
            return false;
        }
        k = k + 1;
    }
    proof {
        assert(v@.subrange(i as int, i + pat@.len()) =~= pat@);
    }
    true
}

/// Substring search.
pub fn contains_sub(v: &Vec<char>, pat: &Vec<char>) -> (r: bool)
    ensures
        r == has_substr(v@, pat@),
{
    if pat.len() > v.len() {
        return false;
    }
    if pat.len() == 0 {
        proof {
            assert(v@.subrange(0int, 0int + pat@.len()) =~= pat@);
        }
        return true;
    }
    let vlen: usize = v.len();
    let bound: usize = vlen - pat.len();
    let mut i: usize = 0;
    while i <= bound
        invariant
            vlen == v@.len(),
            bound == v@.len() - pat@.len(),
            pat@.len() >= 1,
            i <= bound + 1,
            forall|j: int| 0 <= j < i ==> #[trigger] v@.subrange(j, j + pat@.len()) != pat@,
        decreases bound + 1 - i,
    {
        if matches_at(v, i, pat) {
            proof {
                assert(0 <= i as int && i as int + pat@.len() <= v@.len()
                    && v@.subrange(i as int, i as int + pat@.len()) == pat@);
            }
            return true;
        }
        i = i + 1;
    }
    false
}

/// Whether `c` occurs in `v`.
pub fn contains_char(v: &Vec<char>, c: char) -> (r: bool)
    ensures
        r == v@.contains(c),
{
    let mut i: usize = 0;
    while i < v.len()
        invariant
            i <= v@.len(),
            forall|j: int| 0 <= j < i ==> v@[j] != c,
        decreases v@.len() - i,
    {
        if v[i] == c {
            return true;
        }
        i = i + 1;
    }
    false
}

/// A name the Windows file system reserves for devices, in lower case.
pub open spec fn is_windows_reserved(s: Seq<char>) -> bool {
    ||| s == "con"@ ||| s == "prn"@ ||| s == "aux"@ ||| s == "nul"@
    ||| s == "com1"@ ||| s == "com2"@ ||| s == "com3"@ ||| s == "com4"@
    ||| s == "com5"@ ||| s == "com6"@ ||| s == "com7"@ ||| s == "com8"@
    ||| s == "com9"@
    ||| s == "lpt1"@ ||| s == "lpt2"@ ||| s == "lpt3"@ ||| s == "lpt4"@
    ||| s == "lpt5"@ ||| s == "lpt6"@ ||| s == "lpt7"@ ||| s == "lpt8"@
    ||| s == "lpt9"@
}

/// An acceptable exclusion-set entry: non-empty, free of traversal
/// sequences and separators, not a reserved name (case-insensitively), and
/// at most 255 characters long.
pub open spec fn valid_excl_name(s: Seq<char>) -> bool {
    &&& s.len() > 0
    &&& !has_substr(s, ".."@)
    &&& !s.contains('/')
    &&& !s.contains('\\')
    &&& s != "."@
    &&& !is_windows_reserved(lower(s))
    &&& s.len() <= 255
}

/// Checks a directory name destined for the exclusion set.  Accepts the
/// name exactly when `valid_excl_name` holds of it; the error carries a
/// human-readable reason.
pub fn validate_exclude_dir_name(dir_name: &str) -> (r: Result<(), ConfigError>)
    ensures
        r is Ok <==> valid_excl_name(dir_name@),
{
    let v = str_chars(dir_name);
    if v.len() == 0 {
        return Err(ConfigError::InvalidConfig(
            String::from_str("Exclude directory name cannot be empty"),
        ));
    }
    let dotdot = str_chars("..");
    if contains_sub(&v, &dotdot) || contains_char(&v, '/') || contains_char(&v, '\\') {
        let msg = String::from_str("Invalid exclude directory name: '").concat(dir_name).concat(
            "'",
        );
        return Err(ConfigError::InvalidConfig(msg));
    }
    let dot = str_chars(".");
    if chars_eq(&v, &dot) || chars_eq(&v, &dotdot) {
        proof {
            if v@ == dotdot@ {
                assert(v@.subrange(0int, 0int + dotdot@.len()) =~= dotdot@);
            }
        }
        let msg = String::from_str("Reserved directory name cannot be excluded: '").concat(
            dir_name,
        ).concat("'");
        return Err(ConfigError::InvalidConfig(msg));
    }
    let lw = lower_vec(&v);
    let reserved = chars_eq(&lw, &str_chars("con")) || chars_eq(&lw, &str_chars("prn"))
        || chars_eq(&lw, &str_chars("aux")) || chars_eq(&lw, &str_chars("nul"))
        || chars_eq(&lw, &str_chars("com1")) || chars_eq(&lw, &str_chars("com2"))
        || chars_eq(&lw, &str_chars("com3")) || chars_eq(&lw, &str_chars("com4"))
        || chars_eq(&lw, &str_chars("com5")) || chars_eq(&lw, &str_chars("com6"))
        || chars_eq(&lw, &str_chars("com7")) || chars_eq(&lw, &str_chars("com8"))
        || chars_eq(&lw, &str_chars("com9")) || chars_eq(&lw, &str_chars("lpt1"))
        || chars_eq(&lw, &str_chars("lpt2")) || chars_eq(&lw, &str_chars("lpt3"))
        || chars_eq(&lw, &str_chars("lpt4")) || chars_eq(&lw, &str_chars("lpt5"))
        || chars_eq(&lw, &str_chars("lpt6")) || chars_eq(&lw, &str_chars("lpt7"))
        || chars_eq(&lw, &str_chars("lpt8")) || chars_eq(&lw, &str_chars("lpt9"));
    if reserved {
        let msg = String::from_str(
            "Windows reserved name cannot be used as exclude directory: '",
        ).concat(dir_name).concat("'");
        return Err(ConfigError::InvalidConfig(msg));
    }
    if v.len() > 255 {
        return Err(ConfigError::InvalidConfig(
            String::from_str("Exclude directory name too long (max 255 characters)"),
        ));
    }
    Ok(())
}

/// An ASCII letter.
pub open spec fn is_ascii_alpha(c: char) -> bool {
    ('a' <= c && c <= 'z') || ('A' <= c && c <= 'Z')
}

/// An absolute path after separator normalization: it starts with a slash,
/// or with a drive letter and a colon.
pub open spec fn is_abs_path(s: Seq<char>) -> bool {
    ||| (s.len() > 0 && s[0] == '/')
    ||| (s.len() >= 2 && s[1] == ':' && is_ascii_alpha(s[0]))
}

/// `p` is a prefix of `s` that ends at a component boundary: either the
/// whole of `s`, or followed by a separator.
pub open spec fn pat_hits(s: Seq<char>, p: Seq<char>) -> bool {
    &&& p.len() <= s.len()
    &&& s.subrange(0, p.len() as int) == p
    &&& (s.len() == p.len() || s[p.len() as int] == '/')
}

/// A path that reaches into a system directory, judged on the normalized,
/// lower-cased form.
pub open spec fn is_dangerous_path(s: Seq<char>) -> bool {
    ||| pat_hits(s, "/etc"@) ||| pat_hits(s, "/usr"@) ||| pat_hits(s, "/bin"@)
    ||| pat_hits(s, "/sbin"@) ||| pat_hits(s, "/lib"@) ||| pat_hits(s, "/boot"@)
    ||| pat_hits(s, "/dev"@) ||| pat_hits(s, "/proc"@) ||| pat_hits(s, "/sys"@)
    ||| pat_hits(s, "/root"@) ||| pat_hits(s, "/var"@) ||| pat_hits(s, "/opt"@)
    ||| pat_hits(s, "/tmp"@) ||| pat_hits(s, "/home"@) ||| pat_hits(s, "/mnt"@)
    ||| pat_hits(s, "/media"@)
    ||| pat_hits(s, "c:/windows"@) ||| pat_hits(s, "d:/windows"@)
    ||| pat_hits(s, "c:/program files"@) ||| pat_hits(s, "c:/program files (x86)"@)
    ||| pat_hits(s, "c:/system32"@) ||| pat_hits(s, "c:/winnt"@)
    ||| pat_hits(s, "/applications"@) ||| pat_hits(s, "/library"@)
    ||| pat_hits(s, "/system"@) ||| pat_hits(s, "/users"@)
    ||| pat_hits(s, "/windows"@) ||| pat_hits(s, "/program files"@)
    ||| pat_hits(s, "/system32"@) ||| pat_hits(s, "/winnt"@)
}

/// A syntactically acceptable root path: non-empty, free of parent-directory
/// and home-directory traversal once separators are normalized, and, if
/// absolute, not reaching into a known system directory.
pub open spec fn valid_path_syntax(s: Seq<char>) -> bool {
    &&& s.len() > 0
    &&& !has_substr(norm(s), "../"@)
    &&& !has_substr(norm(s), "~/"@)
    &&& !(is_abs_path(norm(s)) && is_dangerous_path(lower(norm(s))))
}

fn pat_hit(v: &Vec<char>, p: &Vec<char>) -> (r: bool)
    ensures
        r == pat_hits(v@, p@),
{
    if p.len() > v.len() {
        return false;
    }
    if !matches_at(v, 0, p) {
        return false;
    }
    v.len() == p.len() || v[p.len()] == '/'
}

/// Checks the syntactic safety of a user-supplied root path.  Accepts the
/// path exactly when `valid_path_syntax` holds of it.  Whether the path
/// exists on disk is not examined here; that is the caller's concern.
pub fn validate_path_syntax(path_str: &str) -> (r: Result<(), ConfigError>)
    ensures
        r is Ok <==> valid_path_syntax(path_str@),
{
    let v = str_chars(path_str);
    if v.len() == 0 {
        return Err(ConfigError::InvalidConfig(String::from_str("Path cannot be empty")));
    }
    let n = norm_vec(&v);
    if contains_sub(&n, &str_chars("../")) || contains_sub(&n, &str_chars("~/")) {
        return Err(ConfigError::InvalidConfig(
            String::from_str("Path traversal (../) or home directory (~) not allowed"),
        ));
    }
    let first = n[0];
    let abs = first == '/' || (n.len() >= 2 && n[1] == ':' && (('a' <= first
        && first <= 'z') || ('A' <= first && first <= 'Z')));
    if abs {
        let lw = lower_vec(&n);
        let dangerous = pat_hit(&lw, &str_chars("/etc")) || pat_hit(&lw, &str_chars("/usr"))
            || pat_hit(&lw, &str_chars("/bin")) || pat_hit(&lw, &str_chars("/sbin"))
            || pat_hit(&lw, &str_chars("/lib")) || pat_hit(&lw, &str_chars("/boot"))
            || pat_hit(&lw, &str_chars("/dev")) || pat_hit(&lw, &str_chars("/proc"))
            || pat_hit(&lw, &str_chars("/sys")) || pat_hit(&lw, &str_chars("/root"))
            || pat_hit(&lw, &str_chars("/var")) || pat_hit(&lw, &str_chars("/opt"))
            || pat_hit(&lw, &str_chars("/tmp")) || pat_hit(&lw, &str_chars("/home"))
            || pat_hit(&lw, &str_chars("/mnt")) || pat_hit(&lw, &str_chars("/media"))
            || pat_hit(&lw, &str_chars("c:/windows")) || pat_hit(&lw, &str_chars("d:/windows"))
            || pat_hit(&lw, &str_chars("c:/program files"))
            || pat_hit(&lw, &str_chars("c:/program files (x86)"))
            || pat_hit(&lw, &str_chars("c:/system32")) || pat_hit(&lw, &str_chars("c:/winnt"))
            || pat_hit(&lw, &str_chars("/applications")) || pat_hit(&lw, &str_chars("/library"))
            || pat_hit(&lw, &str_chars("/system")) || pat_hit(&lw, &str_chars("/users"))
            || pat_hit(&lw, &str_chars("/windows")) || pat_hit(&lw, &str_chars("/program files"))
            || pat_hit(&lw, &str_chars("/system32")) || pat_hit(&lw, &str_chars("/winnt"));
        if dangerous {
            return Err(ConfigError::InvalidConfig(
                String::from_str("Access to a system directory is not allowed"),
            ));
        }
    }
    Ok(())
}

/// Whole-sequence equality.
pub fn chars_eq(v: &Vec<char>, w: &Vec<char>) -> (r: bool)
    ensures
        r == (v@ == w@),
{
    if v.len() != w.len() {
        return false;
    }
    let mut i: usize = 0;
    while i < v.len()
        invariant
            v@.len() == w@.len(),
            i <= v@.len(),
            forall|j: int| 0 <= j < i ==> v@[j] == w@[j],
        decreases v@.len() - i,
    {
        if v[i] != w[i] {
            return false;
        }
        i = i + 1;
    }
    proof {
        assert(v@ =~= w@);
    }
    true
}

} // verus!
