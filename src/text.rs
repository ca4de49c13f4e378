//! Text renderings: decimal numbers, tile labels and player summaries.
use vstd::prelude::*;
use vstd::string::StringExecFns;

use crate::board::{Tile, MAX_NUM_CHAINS};
use crate::game::TurnError;
use crate::player::Player;

verus! {

/// The character of decimal digit `d`.
pub open spec fn digit_char(d: int) -> char {
    if d == 0 {
        '0'
    } else if d == 1 {
        '1'
    } else if d == 2 {
        '2'
    } else if d == 3 {
        '3'
    } else if d == 4 {
        '4'
    } else if d == 5 {
        '5'
    } else if d == 6 {
        '6'
    } else if d == 7 {
        '7'
    } else if d == 8 {
        '8'
    } else {
        '9'
    }
}

/// `n` written in decimal.
pub open spec fn decimal(n: nat) -> Seq<char>
    decreases n,
{
    if n < 10 {
        seq![digit_char(n as int)]
    } else {
        decimal(n / 10).push(digit_char((n % 10) as int))
    }
}

/// The letter that names row `r`: A for the first.
pub open spec fn row_letter(r: int) -> char {
    if r == 0 {
        'A'
    } else if r == 1 {
        'B'
    } else if r == 2 {
        'C'
    } else if r == 3 {
        'D'
    } else if r == 4 {
        'E'
    } else if r == 5 {
        'F'
    } else if r == 6 {
        'G'
    } else if r == 7 {
        'H'
    } else if r == 8 {
        'I'
    } else if r == 9 {
        'J'
    } else if r == 10 {
        'K'
    } else if r == 11 {
        'L'
    } else if r == 12 {
        'M'
    } else if r == 13 {
        'N'
    } else if r == 14 {
        'O'
    } else if r == 15 {
        'P'
    } else if r == 16 {
        'Q'
    } else if r == 17 {
        'R'
    } else if r == 18 {
        'S'
    } else if r == 19 {
        'T'
    } else if r == 20 {
        'U'
    } else if r == 21 {
        'V'
    } else if r == 22 {
        'W'
    } else if r == 23 {
        'X'
    } else if r == 24 {
        'Y'
    } else {
        'Z'
    }
}

/// A tile's name: its column counted from 1, a dash, and its row letter.
pub open spec fn tile_label(t: Tile) -> Seq<char> {
    decimal((t.1 + 1) as nat) + seq!['-', row_letter(t.0 as int)]
}

fn digit_str(d: usize) -> (r: &'static str)
    requires
        d < 10,
    ensures
        r@ == seq![digit_char(d as int)],
{
    match d {
        0 => {
            proof {
                reveal_strlit("0");
            }
            "0"
        },
        1 => {
            proof {
                reveal_strlit("1");
            }
            "1"
        },
        2 => {
            proof {
                reveal_strlit("2");
            }
            "2"
        },
        3 => {
            proof {
                reveal_strlit("3");
            }
            "3"
        },
        4 => {
            proof {
                reveal_strlit("4");
            }
            "4"
        },
        5 => {
            proof {
                reveal_strlit("5");
            }
            "5"
        },
        6 => {
            proof {
                reveal_strlit("6");
            }
            "6"
        },
        7 => {
            proof {
                reveal_strlit("7");
            }
            "7"
        },
        8 => {
            proof {
                reveal_strlit("8");
            }
            "8"
        },
        9 => {
            proof {
                reveal_strlit("9");
            }
            "9"
        },
        _ => {
            proof {
                reveal_strlit("9");
            }
            "9"
        },
    }
}

fn letter_str(r: usize) -> (s: &'static str)
    requires
        r < 26,
    ensures
        s@ == seq![row_letter(r as int)],
{
    match r {
        0 => {
            proof {
                reveal_strlit("A");
            }
            "A"
        },
        1 => {
            proof {
                reveal_strlit("B");
            }
            "B"
        },
        2 => {
            proof {
                reveal_strlit("C");
            }
            "C"
        },
        3 => {
            proof {
                reveal_strlit("D");
            }
            "D"
        },
        4 => {
            proof {
                reveal_strlit("E");
            }
            "E"
        },
        5 => {
            proof {
                reveal_strlit("F");
            }
            "F"
        },
        6 => {
            proof {
                reveal_strlit("G");
            }
            "G"
        },
        7 => {
            proof {
                reveal_strlit("H");
            }
            "H"
        },
        8 => {
            proof {
                reveal_strlit("I");
            }
            "I"
        },
        9 => {
            proof {
                reveal_strlit("J");
            }
            "J"
        },
        10 => {
            proof {
                reveal_strlit("K");
            }
            "K"
        },
        11 => {
            proof {
                reveal_strlit("L");
            }
            "L"
        },
        12 => {
            proof {
                reveal_strlit("M");
            }
            "M"
        },
        13 => {
            proof {
                reveal_strlit("N");
            }
            "N"
        },
        14 => {
            proof {
                reveal_strlit("O");
            }
            "O"
        },
        15 => {
            proof {
                reveal_strlit("P");
            }
            "P"
        },
        16 => {
            proof {
                reveal_strlit("Q");
            }
            "Q"
        },
        17 => {
            proof {
                reveal_strlit("R");
            }
            "R"
        },
        18 => {
            proof {
                reveal_strlit("S");
            }
            "S"
        },
        19 => {
            proof {
                reveal_strlit("T");
            }
            "T"
        },
        20 => {
            proof {
                reveal_strlit("U");
            }
            "U"
        },
        21 => {
            proof {
                reveal_strlit("V");
            }
            "V"
        },
        22 => {
            proof {
                reveal_strlit("W");
            }
            "W"
        },
        23 => {
            proof {
                reveal_strlit("X");
            }
            "X"
        },
        24 => {
            proof {
                reveal_strlit("Y");
            }
            "Y"
        },
        25 => {
            proof {
                reveal_strlit("Z");
            }
            "Z"
        },
        _ => {
            proof {
                reveal_strlit("Z");
            }
            "Z"
        },
    }
}

/// Appends `n` in decimal to `s`.
pub fn push_decimal(s: &mut String, n: usize)
    ensures
        final(s)@ == old(s)@ + decimal(n as nat),
    decreases n,
{
    if n >= 10 {
        push_decimal(s, n / 10);
    }
    s.append(digit_str(n % 10));
    proof {
        if n >= 10 {
            assert(decimal(n as nat) == decimal((n / 10) as nat).push(digit_char((n % 10) as int)));
        }
    }
}

impl Tile {
    /// The tile's name, such as "1-A" for the top-left corner.
    pub fn label(&self) -> (r: String)
        requires
            self.0 < 26,
            self.1 < usize::MAX,
        ensures
            r@ == tile_label(*self),
    {
        let mut s = String::new();
        push_decimal(&mut s, self.1 + 1);
        s.append("-");
        s.append(letter_str(self.0));
        proof {
            reveal_strlit("-");
        }
        assert(s@ == tile_label(*self));
        s
    }
}

/// The items joined with ", ".
pub open spec fn join(items: Seq<Seq<char>>) -> Seq<char>
    decreases items.len(),
{
    if items.len() == 0 {
        Seq::empty()
    } else if items.len() == 1 {
        items[0]
    } else {
        join(items.drop_last()) + seq![',', ' '] + items.last()
    }
}

/// "name: count" for each chain among `0..k` of which shares are held.
pub open spec fn stock_entries(stocks: Seq<usize>, names: Seq<String>, k: int) -> Seq<Seq<char>>
    decreases k,
{
    if k <= 0 {
        Seq::empty()
    } else if stocks[k - 1] > 0 {
        stock_entries(stocks, names, k - 1).push(names[k - 1]@ + seq![':', ' '] + decimal(stocks[k - 1] as nat))
    } else {
        stock_entries(stocks, names, k - 1)
    }
}

/// The labels of the tiles.
pub open spec fn tile_labels(tiles: Seq<Tile>) -> Seq<Seq<char>> {
    tiles.map_values(|t: Tile| tile_label(t))
}

/// A player's summary: cash, shares held per chain, and hand.
pub open spec fn player_text(p: Player, names: Seq<String>) -> Seq<char> {
    "Cash: $"@ + decimal(p.cash as nat) + ", Stocks: ["@ + join(stock_entries(p.stocks@, names, MAX_NUM_CHAINS as int))
        + "], Tiles: ["@ + join(tile_labels(p.tiles@)) + "]"@
}

/// Appends `item` to `s`, after ", " unless it is the first item.
fn push_item(s: &mut String, first: bool, item: &str, ghost_items: Ghost<Seq<Seq<char>>>, ghost_prefix: Ghost<Seq<char>>)
    requires
        old(s)@ == ghost_prefix@ + join(ghost_items@),
        first <==> ghost_items@.len() == 0,
    ensures
        final(s)@ == ghost_prefix@ + join(ghost_items@.push(item@)),
{
    let ghost items = ghost_items@;
    if !first {
        s.append(", ");
        proof {
            reveal_strlit(", ");
        }
    }
    s.append(item);
    assert(items.push(item@).drop_last() == items);
    if first {
        assert(join(items.push(item@)) == item@);
    }
}

impl Player {
    /// The player's summary, such as "Cash: $100, Stocks: [B: 13], Tiles: [2-B, 3-C]",
    /// naming chain `i` by `chain_names[i]`.
    pub fn display(&self, chain_names: &[String]) -> (r: String)
        requires
            forall|i: int| 0 <= i < MAX_NUM_CHAINS && self.stocks@[i] > 0 ==> i < chain_names@.len(),
            forall|k: int| 0 <= k < self.tiles@.len() ==> (#[trigger] self.tiles@[k]).0 < 26 && self.tiles@[k].1 < usize::MAX,
        ensures
            r@ == player_text(*self, chain_names@),
    {
        let mut s = String::new();
        s.append("Cash: $");
        push_decimal(&mut s, self.cash);
        s.append(", Stocks: [");
        proof {
            reveal_strlit("Cash: $");
            reveal_strlit(", Stocks: [");
        }
        let ghost prefix = s@;
        assert(s@ == prefix + join(Seq::empty()));
        let mut first = true;
        let mut i: usize = 0;
        while i < MAX_NUM_CHAINS
            invariant
                i <= MAX_NUM_CHAINS,
                forall|j: int| 0 <= j < MAX_NUM_CHAINS && self.stocks@[j] > 0 ==> j < chain_names@.len(),
                s@ == prefix + join(stock_entries(self.stocks@, chain_names@, i as int)),
                first <==> stock_entries(self.stocks@, chain_names@, i as int).len() == 0,
            decreases MAX_NUM_CHAINS - i,
        {
            if self.stocks[i] > 0 {
                let mut entry = String::new();
                entry.append(chain_names[i].as_str());
                entry.append(": ");
                push_decimal(&mut entry, self.stocks[i]);
                proof {
                    reveal_strlit(": ");
                }
                assert(entry@ == chain_names@[i as int]@ + seq![':', ' '] + decimal(
                    self.stocks@[i as int] as nat,
                ));
                assert(stock_entries(self.stocks@, chain_names@, i + 1) == stock_entries(
                    self.stocks@,
                    chain_names@,
                    i as int,
                ).push(entry@));
                push_item(
                    &mut s,
                    first,
                    entry.as_str(),
                    Ghost(stock_entries(self.stocks@, chain_names@, i as int)),
                    Ghost(prefix),
                );
                first = false;
            }
            i = i + 1;
        }
        s.append("], Tiles: [");
        proof {
            reveal_strlit("], Tiles: [");
        }
        let ghost prefix2 = s@;
        assert(s@ == prefix2 + join(Seq::empty()));
        let mut first = true;
        let mut k: usize = 0;
        while k < self.tiles.len()
            invariant
                k <= self.tiles@.len(),
                forall|j: int| 0 <= j < self.tiles@.len() ==> (#[trigger] self.tiles@[j]).0 < 26 && self.tiles@[j].1 < usize::MAX,
                s@ == prefix2 + join(tile_labels(self.tiles@.take(k as int))),
                first <==> k == 0,
            decreases self.tiles@.len() - k,
        {
            let label = self.tiles[k].label();
            assert(tile_labels(self.tiles@.take(k + 1)) == tile_labels(self.tiles@.take(k as int)).push(label@));
            push_item(&mut s, first, label.as_str(), Ghost(tile_labels(self.tiles@.take(k as int))), Ghost(prefix2));
            first = false;
            k = k + 1;
        }
        assert(self.tiles@.take(self.tiles@.len() as int) == self.tiles@);
        s.append("]");
        proof {
            reveal_strlit("]");
        }
        s
    }
}

/// The message that explains a rejected action.
pub open spec fn error_text(e: TurnError) -> Seq<char> {
    match e {
        TurnError::WrongPhase => "Wrong phase for this action"@,
        TurnError::InvalidTileIndex(i) => "Invalid tile index: "@ + decimal(i as nat),
        TurnError::InvalidChainIndex(i) => "Invalid chain index: "@ + decimal(i as nat),
        TurnError::ChainExists(i) => "Chain "@ + decimal(i as nat) + " already exists"@,
        TurnError::NotEnoughShares => "Cannot sell or trade more shares than held"@,
        TurnError::NotEnoughMarketShares => "Cannot trade for more shares than the market has"@,
        TurnError::TooManyStocks => "Too many stocks bought"@,
        TurnError::NotEnoughStocksAvailable(i) => "Not enough stocks available for chain "@ + decimal(
            i as nat,
        ),
        TurnError::NotEnoughCash => "Not enough cash to buy stocks"@,
    }
}

impl TurnError {
    /// A message for the player that explains why the action was rejected.
    pub fn message(&self) -> (r: String)
        ensures
            r@ == error_text(*self),
    {
        let mut s = String::new();
        match *self {
            TurnError::WrongPhase => {
                s.append("Wrong phase for this action");
                proof {
                    reveal_strlit("Wrong phase for this action");
                }
            },
            TurnError::InvalidTileIndex(i) => {
                s.append("Invalid tile index: ");
                push_decimal(&mut s, i);
                proof {
                    reveal_strlit("Invalid tile index: ");
                }
            },
            TurnError::InvalidChainIndex(i) => {
                s.append("Invalid chain index: ");
                push_decimal(&mut s, i);
                proof {
                    reveal_strlit("Invalid chain index: ");
                }
            },
            TurnError::ChainExists(i) => {
                s.append("Chain ");
                push_decimal(&mut s, i);
                s.append(" already exists");
                proof {
                    reveal_strlit("Chain ");
                    reveal_strlit(" already exists");
                }
            },
            TurnError::NotEnoughShares => {
                s.append("Cannot sell or trade more shares than held");
                proof {
                    reveal_strlit("Cannot sell or trade more shares than held");
                }
            },
            TurnError::NotEnoughMarketShares => {
                s.append("Cannot trade for more shares than the market has");
                proof {
                    reveal_strlit("Cannot trade for more shares than the market has");
                }
            },
            TurnError::TooManyStocks => {
                s.append("Too many stocks bought");
                proof {
                    reveal_strlit("Too many stocks bought");
                }
            },
            TurnError::NotEnoughStocksAvailable(i) => {
                s.append("Not enough stocks available for chain ");
                push_decimal(&mut s, i);
                proof {
                    reveal_strlit("Not enough stocks available for chain ");
                }
            },
            TurnError::NotEnoughCash => {
                s.append("Not enough cash to buy stocks");
                proof {
                    reveal_strlit("Not enough cash to buy stocks");
                }
            },
        }
        s
    }
}

} // verus!
