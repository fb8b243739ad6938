use vstd::prelude::*;

verus! {

/// How many letter pairs were prohibited in a file of random keyboard
/// samples.
#[derive(Debug, Clone, Copy, PartialEq, Eq, Structural)]
pub enum ProhibitedPairs {
    Zero,
    Num20,
    Num40,
    Num60,
    Num80,
}

impl ProhibitedPairs {
    /// The number of prohibited pairs.
    pub open spec fn count(self) -> nat {
        match self {
            ProhibitedPairs::Zero => 0,
            ProhibitedPairs::Num20 => 20,
            ProhibitedPairs::Num40 => 40,
            ProhibitedPairs::Num60 => 60,
            ProhibitedPairs::Num80 => 80,
        }
    }

    /// The file of 5000 random samples per key count made with this many
    /// prohibited pairs, such as `kbd_penalties_5000_samples_20_pairs.csv`.
    pub fn sample_file_name(&self) -> (r: &'static str)
        ensures
            r@ == seq!['k', 'b', 'd', '_', 'p', 'e', 'n', 'a', 'l', 't', 'i', 'e', 's', '_', '5', '0', '0', '0', '_', 's', 'a', 'm', 'p', 'l', 'e', 's', '_']
                + crate::text::decimal(self.count()) + seq!['_', 'p', 'a', 'i', 'r', 's', '.', 'c', 's', 'v'],
    {
        let r = match self {
            ProhibitedPairs::Zero => "kbd_penalties_5000_samples_0_pairs.csv",
            ProhibitedPairs::Num20 => "kbd_penalties_5000_samples_20_pairs.csv",
            ProhibitedPairs::Num40 => "kbd_penalties_5000_samples_40_pairs.csv",
            ProhibitedPairs::Num60 => "kbd_penalties_5000_samples_60_pairs.csv",
            ProhibitedPairs::Num80 => "kbd_penalties_5000_samples_80_pairs.csv",
        };
        proof {
            reveal_strlit("kbd_penalties_5000_samples_0_pairs.csv");
            reveal_strlit("kbd_penalties_5000_samples_20_pairs.csv");
            reveal_strlit("kbd_penalties_5000_samples_40_pairs.csv");
            reveal_strlit("kbd_penalties_5000_samples_60_pairs.csv");
            reveal_strlit("kbd_penalties_5000_samples_80_pairs.csv");
            reveal_with_fuel(crate::text::decimal, 3);
            let prefix = seq!['k', 'b', 'd', '_', 'p', 'e', 'n', 'a', 'l', 't', 'i', 'e', 's', '_', '5', '0', '0', '0', '_', 's', 'a', 'm', 'p', 'l', 'e', 's', '_'];
            let suffix = seq!['_', 'p', 'a', 'i', 'r', 's', '.', 'c', 's', 'v'];
            assert(r@ =~= prefix + crate::text::decimal(self.count()) + suffix);
        }
        r
    }
}

} // verus!
