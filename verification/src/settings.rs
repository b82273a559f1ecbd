//! Display settings: a small persisted document of a storage directory
//! and two booleans. The reader takes the keys in a fixed order but any
//! whitespace between tokens; the writer emits a canonical pretty form.

use vstd::prelude::*;
use crate::codec::{ParseError, p_lit, p_str_body, p_bool, ser_string, ser_bool, lit_at,
    str_body_exec, bool_at, ser_string_exec};

verus! {

pub open spec fn is_ws(c: char) -> bool {
    c == ' ' || c == '\n' || c == '\t' || c == '\r'
}

/// The first index at or after a position that holds no whitespace.
pub open spec fn p_ws(s: Seq<char>, i: int) -> int
    decreases s.len() - i,
{
    if 0 <= i && i < s.len() && is_ws(s[i]) {
        p_ws(s, i + 1)
    } else {
        i
    }
}

/// One key-colon prefix: whitespace, the quoted key, whitespace, a colon.
pub open spec fn p_key(s: Seq<char>, i: int, key: Seq<char>) -> Option<int> {
    match p_lit(s, p_ws(s, i), key) {
        Some(j) => p_lit(s, p_ws(s, j), ":"@),
        None => None,
    }
}

/// The settings document: a brace-delimited object with the three fields
/// in order, then nothing but whitespace.
pub open spec fn p_settings(s: Seq<char>) -> Option<(Seq<char>, bool, bool)> {
    match p_lit(s, p_ws(s, 0), "{"@) {
        Some(j0) => match p_key(s, j0, "\"taskbookDirectory\""@) {
            Some(j1) => match p_lit(s, p_ws(s, j1), "\""@) {
                Some(j2) => match p_str_body(s, j2) {
                    Some((dir, j3)) => match p_lit(s, p_ws(s, j3), ","@) {
                        Some(j4) => match p_key(s, j4, "\"displayCompleteTasks\""@) {
                            Some(j5) => match p_bool(s, p_ws(s, j5)) {
                                Some((ct, j6)) => match p_lit(s, p_ws(s, j6), ","@) {
                                    Some(j7) => match p_key(
                                        s,
                                        j7,
                                        "\"displayProgressOverview\""@,
                                    ) {
                                        Some(j8) => match p_bool(s, p_ws(s, j8)) {
                                            Some((po, j9)) => match p_lit(s, p_ws(s, j9), "}"@) {
                                                Some(j10) => if p_ws(s, j10) == s.len() {
                                                    Some((dir, ct, po))
                                                } else {
                                                    None
                                                },
                                                None => None,
                                            },
                                            None => None,
                                        },
                                        None => None,
                                    },
                                    None => None,
                                },
                                None => None,
                            },
                            None => None,
                        },
                        None => None,
                    },
                    None => None,
                },
                None => None,
            },
            None => None,
        },
        None => None,
    }
}

/// The display preferences and the storage directory.
pub struct Settings {
    taskbook_directory: String,
    display_complete_tasks: bool,
    display_progress_overview: bool,
}

pub open spec fn default_dir() -> Seq<char> {
    "~/.config/tasker"@
}

/// The canonical persisted form of the settings.
pub open spec fn ser_settings(dir: Seq<char>, ct: bool, po: bool) -> Seq<char> {
    "{\n  \"taskbookDirectory\": "@ + ser_string(dir) + ",\n  \"displayCompleteTasks\": "@
        + ser_bool(ct) + ",\n  \"displayProgressOverview\": "@ + ser_bool(po) + "\n}"@
}

/// Skips whitespace.
fn ws_at(s: &str, i: usize) -> (r: usize)
    requires
        i <= s@.len(),
    ensures
        r == p_ws(s@, i as int),
        i <= r <= s@.len(),
    decreases s@.len() - i,
{
    let n = s.unicode_len();
    if i < n {
        let c = s.get_char(i);
        if c == ' ' || c == '\n' || c == '\t' || c == '\r' {
            return ws_at(s, i + 1);
        }
    }
    i
}

/// Matches one quoted key and its colon.
fn key_at(s: &str, i: usize, key: &str) -> (r: Option<usize>)
    requires
        i <= s@.len(),
    ensures
        match r {
            Some(j) => p_key(s@, i as int, key@) == Some(j as int) && j <= s@.len(),
            None => p_key(s@, i as int, key@) is None,
        },
{
    proof {
        reveal_strlit(":");
    }
    let w = ws_at(s, i);
    match lit_at(s, w, key) {
        Some(j) => {
            proof {
                assert(j as int <= s@.len());
            }
            let w2 = ws_at(s, j);
            lit_at(s, w2, ":")
        },
        None => None,
    }
}

impl Settings {
    /// Reads the settings from their persisted text; empty input gives
    /// the defaults. Anything else that is not a settings document is
    /// refused.
    pub fn new(settings_file: String) -> (r: Result<Settings, ParseError>)
        ensures
            match r {
                Ok(st) => (settings_file@.len() == 0 ==> st@ == (default_dir(), true, true))
                    && (settings_file@.len() != 0 ==> p_settings(settings_file@) == Some(st@)),
                Err(_) => settings_file@.len() != 0 && p_settings(settings_file@) is None,
            },
    {
        proof {
            reveal_strlit("{");
            reveal_strlit("}");
            reveal_strlit(",");
            reveal_strlit("\"");
        }
        let s = settings_file.as_str();
        let n = s.unicode_len();
        if n == 0 {
            return Ok(
                Settings {
                    taskbook_directory: String::from_str("~/.config/tasker"),
                    display_complete_tasks: true,
                    display_progress_overview: true,
                },
            );
        }
        let j0 = match lit_at(s, ws_at(s, 0), "{") {
            Some(j) => j,
            None => {
                return Err(ParseError);
            },
        };
        proof {
            assert(j0 as int <= s@.len());
        }
        let j1 = match key_at(s, j0, "\"taskbookDirectory\"") {
            Some(j) => j,
            None => {
                return Err(ParseError);
            },
        };
        let j2 = match lit_at(s, ws_at(s, j1), "\"") {
            Some(j) => j,
            None => {
                return Err(ParseError);
            },
        };
        let (dir, j3) = match str_body_exec(s, j2) {
            Some(p) => p,
            None => {
                return Err(ParseError);
            },
        };
        let j4 = match lit_at(s, ws_at(s, j3), ",") {
            Some(j) => j,
            None => {
                return Err(ParseError);
            },
        };
        proof {
            assert(j4 as int <= s@.len());
        }
        let j5 = match key_at(s, j4, "\"displayCompleteTasks\"") {
            Some(j) => j,
            None => {
                return Err(ParseError);
            },
        };
        let (ct, j6) = match bool_at(s, ws_at(s, j5)) {
            Some(p) => p,
            None => {
                return Err(ParseError);
            },
        };
        let j7 = match lit_at(s, ws_at(s, j6), ",") {
            Some(j) => j,
            None => {
                return Err(ParseError);
            },
        };
        proof {
            assert(j7 as int <= s@.len());
        }
        let j8 = match key_at(s, j7, "\"displayProgressOverview\"") {
            Some(j) => j,
            None => {
                return Err(ParseError);
            },
        };
        let (po, j9) = match bool_at(s, ws_at(s, j8)) {
            Some(p) => p,
            None => {
                return Err(ParseError);
            },
        };
        let j10 = match lit_at(s, ws_at(s, j9), "}") {
            Some(j) => j,
            None => {
                return Err(ParseError);
            },
        };
        proof {
            assert(j10 as int <= s@.len());
        }
        if ws_at(s, j10) != n {
            return Err(ParseError);
        }
        Ok(
            Settings {
                taskbook_directory: dir,
                display_complete_tasks: ct,
                display_progress_overview: po,
            },
        )
    }

    /// Whether completed tasks are shown.
    pub fn show_completed(&self) -> (r: bool)
        ensures
            r == self@.1,
    {
        self.display_complete_tasks
    }

    /// Whether the progress overview is shown.
    pub fn show_progress(&self) -> (r: bool)
        ensures
            r == self@.2,
    {
        self.display_progress_overview
    }

    /// Renders the settings in their canonical persisted form.
    pub fn serialize(&self) -> (r: String)
        ensures
            r@ == ser_settings(self@.0, self@.1, self@.2),
    {
        let mut r = String::from_str("{\n  \"taskbookDirectory\": ");
        let d = ser_string_exec(self.taskbook_directory.as_str());
        r.append(d.as_str());
        r.append(",\n  \"displayCompleteTasks\": ");
        r.append(if self.display_complete_tasks {
            "true"
        } else {
            "false"
        });
        r.append(",\n  \"displayProgressOverview\": ");
        r.append(if self.display_progress_overview {
            "true"
        } else {
            "false"
        });
        r.append("\n}");
        proof {
            assert(r@ =~= ser_settings(self@.0, self@.1, self@.2));
        }
        r
    }
}

impl View for Settings {
    type V = (Seq<char>, bool, bool);

    closed spec fn view(&self) -> (Seq<char>, bool, bool) {
        (self.taskbook_directory@, self.display_complete_tasks, self.display_progress_overview)
    }
}

} // verus!
