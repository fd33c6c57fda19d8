//! Command-line options.

use vstd::prelude::*;

verus! {

use crate::codegen::ledger_file::texts;
use crate::text::str_eq;

/// The escape hatches on the ledger's discipline, all off by default.
#[derive(Clone, Copy, Debug, PartialEq, Eq, Structural)]
pub struct CodegenOptions {
    /// Create the ledger when it does not exist, instead of refusing.
    pub bootstrap_ledger: bool,
    /// Accept a run that both retires and mints.
    pub allow_retire_and_mint: bool,
    /// Accept that a name matching a retired row is the same colour.
    pub allow_revival: bool,
}

/// How the program is called.
pub const USAGE: &'static str = "usage: cargo xtask [codegen] [--bootstrap-ledger] [--allow-retire-and-mint] [--allow-revival]";

/// Whether `word` is an argument that the program knows.
pub open spec fn known(word: Seq<char>) -> bool {
    ||| word == "codegen"@
    ||| word == "--bootstrap-ledger"@
    ||| word == "--allow-retire-and-mint"@
    ||| word == "--allow-revival"@
}

impl Default for CodegenOptions {
    fn default() -> (options: Self)
        ensures
            options == (CodegenOptions {
                bootstrap_ledger: false,
                allow_retire_and_mint: false,
                allow_revival: false,
            }),
    {
        CodegenOptions {
            bootstrap_ledger: false,
            allow_retire_and_mint: false,
            allow_revival: false,
        }
    }
}

impl CodegenOptions {
    /// Takes in the arguments: each flag is set if it is among them. The
    /// first word that is not known is handed back.
    pub fn parse(args: &Vec<String>) -> (r: Result<CodegenOptions, String>)
        ensures
            match r {
                Ok(options) => {
                    &&& forall|i: int|
                        0 <= i < args@.len() ==> known(#[trigger] texts(args@)[i])
                    &&& options.bootstrap_ledger == texts(args@).contains("--bootstrap-ledger"@)
                    &&& options.allow_retire_and_mint == texts(args@).contains(
                        "--allow-retire-and-mint"@,
                    )
                    &&& options.allow_revival == texts(args@).contains("--allow-revival"@)
                },
                Err(word) => exists|i: int|
                    {
                        &&& 0 <= i < args@.len()
                        &&& #[trigger] texts(args@)[i] == word@
                        &&& !known(word@)
                        &&& forall|k: int| 0 <= k < i ==> known(#[trigger] texts(args@)[k])
                    },
            },
    {
        let ghost words = texts(args@);
        let mut options: CodegenOptions = CodegenOptions::default();
        proof {
            reveal_strlit("codegen");
            reveal_strlit("--bootstrap-ledger");
            reveal_strlit("--allow-retire-and-mint");
            reveal_strlit("--allow-revival");
            assert("codegen"@.len() == 7 && "--bootstrap-ledger"@.len() == 18
                && "--allow-retire-and-mint"@.len() == 23 && "--allow-revival"@.len() == 15);
        }
        let mut i: usize = 0;
        while i < args.len()
            invariant
                i <= args@.len(),
                words == texts(args@),
                "codegen"@.len() == 7,
                "--bootstrap-ledger"@.len() == 18,
                "--allow-retire-and-mint"@.len() == 23,
                "--allow-revival"@.len() == 15,
                forall|k: int| 0 <= k < i ==> known(#[trigger] words[k]),
                options.bootstrap_ledger == words.take(i as int).contains("--bootstrap-ledger"@),
                options.allow_retire_and_mint == words.take(i as int).contains(
                    "--allow-retire-and-mint"@,
                ),
                options.allow_revival == words.take(i as int).contains("--allow-revival"@),
            decreases args@.len() - i,
        {
            let word: &str = args[i].as_str();
            proof {
                assert(words[i as int] == word@);
                lemma_take_contains(words, i as int, "--bootstrap-ledger"@);
                lemma_take_contains(words, i as int, "--allow-retire-and-mint"@);
                lemma_take_contains(words, i as int, "--allow-revival"@);
            }
            if str_eq(word, "codegen") {
            } else if str_eq(word, "--bootstrap-ledger") {
                options.bootstrap_ledger = true;
            } else if str_eq(word, "--allow-retire-and-mint") {
                options.allow_retire_and_mint = true;
            } else if str_eq(word, "--allow-revival") {
                options.allow_revival = true;
            } else {
                return Err(word.to_owned());
            }
            i += 1;
        }
        assert(words.take(i as int) =~= words);
        Ok(options)
    }
}

proof fn lemma_take_contains(words: Seq<Seq<char>>, i: int, word: Seq<char>)
    requires
        0 <= i < words.len(),
    ensures
        words.take(i + 1).contains(word) <==> words.take(i).contains(word) || words[i] == word,
{
    let (a, b) = (words.take(i), words.take(i + 1));
    if a.contains(word) {
        let k = choose|k: int| 0 <= k < a.len() && a[k] == word;
        assert(b[k] == word);
    }
    if words[i] == word {
        assert(b[i] == word);
    }
    if b.contains(word) {
        let k = choose|k: int| 0 <= k < b.len() && b[k] == word;
        if k < i {
            assert(a[k] == word);
        }
    }
}

} // verus!
