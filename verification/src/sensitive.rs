//! The built-in audit mode: directories not worth scanning, file extensions of
//! configuration and source files, and patterns of hard-coded secrets.
use vstd::prelude::*;

use crate::pattern::{escape, escaped};
use crate::text::{joined, str_equals};

verus! {

/// Directories that hold version-control data, dependencies, build output, virtual
/// environments, logs and temporary files.
pub const COMMON_IGNORE_DIRS: [&'static str; 27] = [
    // version control and IDE settings
    ".git",
    ".svn",
    ".idea",
    ".vscode",
    ".settings",
    // dependencies and package managers
    "node_modules",
    "vendor",
    "bower_components",
    "packages",
    // build output and caches
    "target",
    "build",
    "dist",
    "out",
    "bin",
    "obj",
    "__pycache__",
    ".cache",
    ".next",
    ".nuxt",
    // virtual environments
    "venv",
    ".venv",
    "env",
    ".env_dir",
    // logs and temporary files
    "logs",
    "tmp",
    "temp",
    "coverage",
];

/// Whether `name` is one of the directories in `COMMON_IGNORE_DIRS`.
pub fn is_common_ignore_dir(name: &str) -> (res: bool)
    ensures
        res == exists|i: int| 0 <= i < COMMON_IGNORE_DIRS@.len() && #[trigger] COMMON_IGNORE_DIRS@[i]@ == name@,
{
    let mut i: usize = 0;
    while i < COMMON_IGNORE_DIRS.len()
        invariant
            i <= COMMON_IGNORE_DIRS@.len(),
            forall|j: int| 0 <= j < i ==> #[trigger] COMMON_IGNORE_DIRS@[j]@ != name@,
        decreases COMMON_IGNORE_DIRS.len() - i,
    {
        if str_equals(COMMON_IGNORE_DIRS[i], name) {
            return true;
        }
        i += 1;
    }
    false
}

} // verus!

verus! {

/// Extensions of configuration and source files, where secrets tend to be written down.
pub const SENSITIVE_EXTENSIONS: [&'static str; 19] = [
    ".yml",
    ".yaml",
    ".properties",
    ".json",
    ".conf",
    ".xml",
    ".ini",
    ".env",
    ".sh",
    ".bash",
    ".py",
    ".java",
    ".go",
    ".js",
    ".ts",
    ".php",
    ".rb",
    ".txt",
    ".sql",
];

/// Patterns of hard-coded secrets.
pub const SENSITIVE_PATTERNS: [&'static str; 8] = [
    // passwords
    r"(?i)(password|passwd|pwd)[\s]*[:=][\s]*['\x22]?[a-zA-Z0-9!@#$%^&*()_+]{6,}['\x22]?",
    // access keys
    r"(?i)(ak|access_key|accesskey|aws_access_key_id)[\s]*[:=][\s]*['\x22]?[A-Za-z0-9]{16,40}['\x22]?",
    // secret keys
    r"(?i)(sk|secret_key|secretkey|aws_secret_access_key)[\s]*[:=][\s]*['\x22]?[A-Za-z0-9/+=]{30,60}['\x22]?",
    // tokens
    r"(?i)(token|api_token|access_token|bearer_token)[\s]*[:=][\s]*['\x22]?[A-Za-z0-9\-\._]{20,}['\x22]?",
    // JDBC URLs
    r"(?i)jdbc:mysql://[a-zA-Z0-9\-\.]+:[0-9]{1,5}/[a-zA-Z0-9_]+",
    // mainland China mobile numbers
    r"1[3-9]\d{9}",
    // WeChat mini program identifiers
    r"(?i)wx[a-f0-9]{16}",
    // private keys
    r"-----BEGIN (RSA |DSA |EC |OPENSSH |PRIVATE )?PRIVATE KEY-----",
];

/// The texts of a list of string slices.
pub open spec fn texts_of(strs: Seq<&str>) -> Seq<Seq<char>> {
    strs.map_values(|s: &str| s@)
}

/// All secret patterns as one alternation.
pub open spec fn combined_sensitive_pattern() -> Seq<char> {
    joined(texts_of(SENSITIVE_PATTERNS@), seq!['|'])
}

/// Appends an owned copy of each of `src` to `dst`.
fn push_all(dst: &mut Vec<String>, src: &[&str])
    ensures
        final(dst).deep_view() == old(dst).deep_view() + texts_of(src@),
{
    let mut k: usize = 0;
    while k < src.len()
        invariant
            k <= src@.len(),
            dst.deep_view() == old(dst).deep_view() + texts_of(src@.take(k as int)),
        decreases src.len() - k,
    {
        let ghost before = dst.deep_view();
        dst.push(src[k].to_owned());
        proof {
            assert(dst.deep_view() =~= before.push(src@[k as int]@));
            assert(texts_of(src@.take(k + 1)) =~= texts_of(src@.take(k as int)).push(
                src@[k as int]@,
            ));
        }
        k += 1;
    }
    proof {
        assert(src@.take(k as int) =~= src@);
    }
}

/// Switches the search to the built-in audit: regular expressions, the extensions of
/// configuration and source files (in place of the given ones when none were given,
/// else after them), and a single pattern that joins the secret patterns by `|`,
/// preceded by the user's own key when there is one: as a pattern when patterns were
/// asked for, else escaped so that it matches only its own text.
pub fn apply_sensitive_rules(
    is_reg: &mut bool,
    prefixes: &mut Vec<String>,
    keys: &mut Vec<String>,
    keys_str: &str,
    pre_str: &str,
)
    ensures
        *final(is_reg),
        final(prefixes).deep_view() == if pre_str@.len() == 0 {
            texts_of(SENSITIVE_EXTENSIONS@)
        } else {
            old(prefixes).deep_view() + texts_of(SENSITIVE_EXTENSIONS@)
        },
        final(keys).deep_view() == seq![
            if keys_str@.len() == 0 {
                combined_sensitive_pattern()
            } else {
                (if *old(is_reg) {
                    keys_str@
                } else {
                    escaped(keys_str@)
                }) + seq!['|'] + combined_sensitive_pattern()
            },
        ],
{
    let was_reg = *is_reg;
    // the audit always searches by regular expression
    *is_reg = true;

    let sens_prefixes: &[&str] = &SENSITIVE_EXTENSIONS;
    if pre_str.is_empty() {
        let mut fresh: Vec<String> = Vec::new();
        push_all(&mut fresh, sens_prefixes);
        proof {
            assert(fresh.deep_view() =~= texts_of(sens_prefixes@));
        }
        *prefixes = fresh;
    } else {
        push_all(prefixes, sens_prefixes);
    }

    let sens_keys: &[&str] = &SENSITIVE_PATTERNS;
    let combined_sens_regex = crate::text::join(sens_keys, "|");
    proof {
        reveal_strlit("|");
        assert("|"@ =~= seq!['|']);
        assert(combined_sens_regex@ == combined_sensitive_pattern());
    }

    if keys_str.is_empty() {
        *keys = vec![combined_sens_regex];
        assert(keys@.len() == 1);
        assert(keys@[0]@ == combined_sensitive_pattern());
    } else {
        // a user pattern joins the combined one as another alternative
        // a plain keyword is escaped so that it keeps matching only its own text
        let mut user_reg = if was_reg {
            keys_str.to_owned()
        } else {
            escape(keys_str)
        };
        let ghost user = user_reg@;
        crate::text::push_char(&mut user_reg, '|');
        crate::text::push_str(&mut user_reg, combined_sens_regex.as_str());
        assert(user_reg@ == user + seq!['|'] + combined_sensitive_pattern());
        *keys = vec![user_reg];
        assert(keys@.len() == 1);
    }
    proof {
        assert(keys.deep_view() =~= seq![keys@[0]@]);
    }
}

} // verus!
