use vstd::prelude::*;
use vstd::string::*;

verus! {

/// The part of the configuration needed before anything else can run.
pub struct Startup {
    pub working_dir: String,
    pub listen_addr: String,
}

/// The part of the configuration needed to reach the database.
pub struct Mysql {
    pub host: String,
    pub port: u16,
    pub user: String,
    pub password: String,
    pub db: String,
}

/// The whole configuration.
pub struct Settings {
    pub startup: Startup,
    pub mysql: Mysql,
}

/// The character of the decimal digit `d`.
pub open spec fn digit_char(d: int) -> char {
    if d == 0 {
        '0'
    } else if d == 1 {
        '1'
    } else if d == 2 {
        '2'
    } else if d == 3 {
        '3'
    } else if d == 4 {
        '4'
    } else if d == 5 {
        '5'
    } else if d == 6 {
        '6'
    } else if d == 7 {
        '7'
    } else if d == 8 {
        '8'
    } else {
        '9'
    }
}

/// `n` written in decimal, without leading zeros.
pub open spec fn decimal_text(n: nat) -> Seq<char>
    decreases n,
{
    if n < 10 {
        seq![digit_char(n as int)]
    } else {
        decimal_text(n / 10) + seq![digit_char((n % 10) as int)]
    }
}

/// The configuration file in TOML that holds the values of `s`.
pub open spec fn toml_text(s: &Settings) -> Seq<char> {
    "[startup]\nworking_dir = \""@ + s.startup.working_dir@ + "\"\nlisten_addr = \""@
        + s.startup.listen_addr@ + "\"\n[mysql]\nhost = \""@ + s.mysql.host@ + "\"\nport = "@
        + decimal_text(s.mysql.port as nat) + "\nuser = \""@ + s.mysql.user@ + "\"\npassword = \""@
        + s.mysql.password@ + "\"\ndb = \""@ + s.mysql.db@ + "\"\n"@
}

fn digit_str(d: u64) -> (r: &'static str)
    requires
        d < 10,
    ensures
        r@ == seq![digit_char(d as int)],
{
    proof {
        reveal_strlit("0");
        reveal_strlit("1");
        reveal_strlit("2");
        reveal_strlit("3");
        reveal_strlit("4");
        reveal_strlit("5");
        reveal_strlit("6");
        reveal_strlit("7");
        reveal_strlit("8");
        reveal_strlit("9");
    }
    let r = if d == 0 {
        "0"
    } else if d == 1 {
        "1"
    } else if d == 2 {
        "2"
    } else if d == 3 {
        "3"
    } else if d == 4 {
        "4"
    } else if d == 5 {
        "5"
    } else if d == 6 {
        "6"
    } else if d == 7 {
        "7"
    } else if d == 8 {
        "8"
    } else {
        "9"
    };
    assert(r@ =~= seq![digit_char(d as int)]);
    r
}

/// `n` written in decimal.
pub fn decimal_string(n: u64) -> (r: String)
    ensures
        r@ == decimal_text(n as nat),
    decreases n,
{
    if n < 10 {
        String::from_str(digit_str(n))
    } else {
        let mut s = decimal_string(n / 10);
        s.append(digit_str(n % 10));
        s
    }
}

impl Settings {
    /// The configuration file in TOML that holds these values.
    pub fn to_toml(&self) -> (r: String)
        ensures
            r@ == toml_text(self),
    {
        let mut t = String::from_str("[startup]\nworking_dir = \"");
        t.append(self.startup.working_dir.as_str());
        t.append("\"\nlisten_addr = \"");
        t.append(self.startup.listen_addr.as_str());
        t.append("\"\n[mysql]\nhost = \"");
        t.append(self.mysql.host.as_str());
        t.append("\"\nport = ");
        let port = decimal_string(self.mysql.port as u64);
        t.append(port.as_str());
        t.append("\nuser = \"");
        t.append(self.mysql.user.as_str());
        t.append("\"\npassword = \"");
        t.append(self.mysql.password.as_str());
        t.append("\"\ndb = \"");
        t.append(self.mysql.db.as_str());
        t.append("\"\n");
        t
    }
}

} // verus!
