//! The game modes a player holds a score for.

use vstd::prelude::*;
use crate::text::str_eq;

verus! {

#[derive(Debug, Clone, Copy, PartialEq, Eq, Structural)]
pub enum GameMode {
    Killing,
    RankedDuel,
    Tdm,
    SacrificeTournament,
    Instagib,
    Slipgate,
    Duel,
    Ctf,
    Ffa,
    Sacrifice,
    Objective,
    Tdm2v2,
}

/// The mode whose wire name is `n`, if any.
pub open spec fn mode_named(n: Seq<char>) -> Option<GameMode> {
    if n == "killing"@ {
        Some(GameMode::Killing)
    } else if n == "ranked-duel"@ {
        Some(GameMode::RankedDuel)
    } else if n == "tdm"@ {
        Some(GameMode::Tdm)
    } else if n == "sacrifice-tournament"@ {
        Some(GameMode::SacrificeTournament)
    } else if n == "instagib"@ {
        Some(GameMode::Instagib)
    } else if n == "slipgate"@ {
        Some(GameMode::Slipgate)
    } else if n == "duel"@ {
        Some(GameMode::Duel)
    } else if n == "ctf"@ {
        Some(GameMode::Ctf)
    } else if n == "ffa"@ {
        Some(GameMode::Ffa)
    } else if n == "sacrifice"@ {
        Some(GameMode::Sacrifice)
    } else if n == "objective"@ {
        Some(GameMode::Objective)
    } else if n == "tdm-2v2"@ {
        Some(GameMode::Tdm2v2)
    } else {
        None
    }
}

impl GameMode {
    /// Every mode, in the order the stats embed lists them.
    pub const ALL: [GameMode; 12] = [
        GameMode::SacrificeTournament,
        GameMode::Sacrifice,
        GameMode::Objective,
        GameMode::Ctf,
        GameMode::Tdm,
        GameMode::Killing,
        GameMode::RankedDuel,
        GameMode::Instagib,
        GameMode::Slipgate,
        GameMode::Duel,
        GameMode::Ffa,
        GameMode::Tdm2v2,
    ];

    /// The wire name of a mode, as used in commands and button ids.
    pub open spec fn spec_name(self) -> Seq<char> {
        match self {
            GameMode::Killing => "killing"@,
            GameMode::RankedDuel => "ranked-duel"@,
            GameMode::Tdm => "tdm"@,
            GameMode::SacrificeTournament => "sacrifice-tournament"@,
            GameMode::Instagib => "instagib"@,
            GameMode::Slipgate => "slipgate"@,
            GameMode::Duel => "duel"@,
            GameMode::Ctf => "ctf"@,
            GameMode::Ffa => "ffa"@,
            GameMode::Sacrifice => "sacrifice"@,
            GameMode::Objective => "objective"@,
            GameMode::Tdm2v2 => "tdm-2v2"@,
        }
    }

    pub fn name(&self) -> (r: &'static str)
        ensures
            r@ == self.spec_name(),
    {
        match self {
            GameMode::Killing => "killing",
            GameMode::RankedDuel => "ranked-duel",
            GameMode::Tdm => "tdm",
            GameMode::SacrificeTournament => "sacrifice-tournament",
            GameMode::Instagib => "instagib",
            GameMode::Slipgate => "slipgate",
            GameMode::Duel => "duel",
            GameMode::Ctf => "ctf",
            GameMode::Ffa => "ffa",
            GameMode::Sacrifice => "sacrifice",
            GameMode::Objective => "objective",
            GameMode::Tdm2v2 => "tdm-2v2",
        }
    }

    /// The name shown to people.
    pub open spec fn spec_label(self) -> Seq<char> {
        match self {
            GameMode::Killing => "Killing"@,
            GameMode::RankedDuel => "Ranked Duel"@,
            GameMode::Tdm => "TDM"@,
            GameMode::SacrificeTournament => "Sacrifice Tournament"@,
            GameMode::Instagib => "Instagib"@,
            GameMode::Slipgate => "Slipgate"@,
            GameMode::Duel => "Duel"@,
            GameMode::Ctf => "CTF"@,
            GameMode::Ffa => "FFA"@,
            GameMode::Sacrifice => "Sacrifice"@,
            GameMode::Objective => "Objective"@,
            GameMode::Tdm2v2 => "TDM 2v2"@,
        }
    }

    /// The name shown to people.
    pub fn label(&self) -> (r: &'static str)
        ensures
            r@ == self.spec_label(),
    {
        match self {
            GameMode::Killing => "Killing",
            GameMode::RankedDuel => "Ranked Duel",
            GameMode::Tdm => "TDM",
            GameMode::SacrificeTournament => "Sacrifice Tournament",
            GameMode::Instagib => "Instagib",
            GameMode::Slipgate => "Slipgate",
            GameMode::Duel => "Duel",
            GameMode::Ctf => "CTF",
            GameMode::Ffa => "FFA",
            GameMode::Sacrifice => "Sacrifice",
            GameMode::Objective => "Objective",
            GameMode::Tdm2v2 => "TDM 2v2",
        }
    }

    /// The mode whose wire name is `name`, if any.
    pub fn from_name(name: &str) -> (r: Option<GameMode>)
        ensures
            r == mode_named(name@),
    {
        if str_eq(name, "killing") {
            Some(GameMode::Killing)
        } else if str_eq(name, "ranked-duel") {
            Some(GameMode::RankedDuel)
        } else if str_eq(name, "tdm") {
            Some(GameMode::Tdm)
        } else if str_eq(name, "sacrifice-tournament") {
            Some(GameMode::SacrificeTournament)
        } else if str_eq(name, "instagib") {
            Some(GameMode::Instagib)
        } else if str_eq(name, "slipgate") {
            Some(GameMode::Slipgate)
        } else if str_eq(name, "duel") {
            Some(GameMode::Duel)
        } else if str_eq(name, "ctf") {
            Some(GameMode::Ctf)
        } else if str_eq(name, "ffa") {
            Some(GameMode::Ffa)
        } else if str_eq(name, "sacrifice") {
            Some(GameMode::Sacrifice)
        } else if str_eq(name, "objective") {
            Some(GameMode::Objective)
        } else if str_eq(name, "tdm-2v2") {
            Some(GameMode::Tdm2v2)
        } else {
            None
        }
    }
}

/// Distinct modes have distinct wire names, so a name read back from a
/// command or a button id identifies exactly one mode.
pub proof fn lemma_spec_name_injective(a: GameMode, b: GameMode)
    ensures
        a.spec_name() == b.spec_name() ==> a == b,
{
    reveal_strlit("killing");
    reveal_strlit("ranked-duel");
    reveal_strlit("tdm");
    reveal_strlit("sacrifice-tournament");
    reveal_strlit("instagib");
    reveal_strlit("slipgate");
    reveal_strlit("duel");
    reveal_strlit("ctf");
    reveal_strlit("ffa");
    reveal_strlit("sacrifice");
    reveal_strlit("objective");
    reveal_strlit("tdm-2v2");
    if a.spec_name() == b.spec_name() && a != b {
        assert(a.spec_name().len() == b.spec_name().len());
        assert(a.spec_name()[0] == b.spec_name()[0]);
        assert(a.spec_name()[1] == b.spec_name()[1]);
        assert(a.spec_name()[2] == b.spec_name()[2]);
    }
}

/// `ALL` lists every mode exactly once.
pub proof fn lemma_all_modes(m: GameMode)
    ensures
        GameMode::ALL@.len() == 12,
        GameMode::ALL@.contains(m),
        GameMode::ALL@.no_duplicates(),
{
    let all = GameMode::ALL@;
    assert(all[0] == GameMode::SacrificeTournament);
    assert(all[1] == GameMode::Sacrifice);
    assert(all[2] == GameMode::Objective);
    assert(all[3] == GameMode::Ctf);
    assert(all[4] == GameMode::Tdm);
    assert(all[5] == GameMode::Killing);
    assert(all[6] == GameMode::RankedDuel);
    assert(all[7] == GameMode::Instagib);
    assert(all[8] == GameMode::Slipgate);
    assert(all[9] == GameMode::Duel);
    assert(all[10] == GameMode::Ffa);
    assert(all[11] == GameMode::Tdm2v2);
}

/// A name that names a mode is that mode's wire name.
pub proof fn lemma_named_mode(n: Seq<char>)
    ensures
        mode_named(n) is Some ==> n == mode_named(n)->0.spec_name(),
{
}

/// Reading back the wire name of a mode gives that mode.
pub proof fn lemma_name_round_trip(m: GameMode)
    ensures
        mode_named(m.spec_name()) == Some(m),
{
    lemma_spec_name_injective(m, mode_named(m.spec_name()).unwrap());
}

} // verus!
