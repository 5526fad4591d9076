use vstd::prelude::*;

verus! {

/// The title drawn above the text, one screen row per line.
pub const BANNER: &'static str = "__      __ ___  __  __\n\\ \\    / /| _ \\|  \\/  |\n \\ \\/\\/ / |  _/| |\\/| |\n  \\_/\\_/  |_|  |_|  |_|";

/// The title is at most 200 characters long.
pub proof fn lemma_banner_len()
    ensures
        BANNER@.len() <= 200,
{
    reveal_strlit("__      __ ___  __  __\n\\ \\    / /| _ \\|  \\/  |\n \\ \\/\\/ / |  _/| |\\/| |\n  \\_/\\_/  |_|  |_|  |_|");
}

/// The title text, with a bound on its length that the layout relies on.
pub fn banner_text() -> (text: &'static str)
    ensures
        text@ == BANNER@,
        text@.len() <= 200,
{
    proof {
        lemma_banner_len();
    }
    BANNER
}

} // verus!
