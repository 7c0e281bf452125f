//! The `netsh` command lines with which the Windows back end renames an
//! interface and sets or clears its DNS servers, and the outcome it reports
//! for a command from the command's exit status and output. Running the
//! commands is left to the caller.
use encoding_rs::GBK;
use vstd::prelude::*;
use vstd::string::StringExecFns;

verus! {

/// What `format!("{:?}", s)` makes of the string `s`: the string in double
/// quotes with its special characters escaped.
pub uninterp spec fn str_debug(s: Seq<char>) -> Seq<char>;

/// `<str as Debug>::fmt` through `format!("{:?}", s)`; its result is
/// [`str_debug`] of the characters of `s`, which is all that is claimed of it
/// (its escaping consults Unicode tables of the standard library).
#[verifier::external_body]
fn debug_quoted(s: &str) -> (r: String)
    ensures
        r@ == str_debug(s@),
{
    format!("{:?}", s)
}

/// The decimal digit `d`.
pub open spec fn digit_char(d: nat) -> char {
    if d == 0 {
        '0'
    } else if d == 1 {
        '1'
    } else if d == 2 {
        '2'
    } else if d == 3 {
        '3'
    } else if d == 4 {
        '4'
    } else if d == 5 {
        '5'
    } else if d == 6 {
        '6'
    } else if d == 7 {
        '7'
    } else if d == 8 {
        '8'
    } else {
        '9'
    }
}

/// The decimal notation of `n`, without leading zeros.
pub open spec fn decimal(n: nat) -> Seq<char>
    decreases n,
{
    if n < 10 {
        seq![digit_char(n)]
    } else {
        decimal(n / 10).push(digit_char(n % 10))
    }
}

/// The one-character string of the decimal digit `d`.
fn digit_str(d: u32) -> (r: &'static str)
    requires
        d < 10,
    ensures
        r@ == seq![digit_char(d as nat)],
{
    proof {
        reveal_strlit("0");
        reveal_strlit("1");
        reveal_strlit("2");
        reveal_strlit("3");
        reveal_strlit("4");
        reveal_strlit("5");
        reveal_strlit("6");
        reveal_strlit("7");
        reveal_strlit("8");
        reveal_strlit("9");
    }
    if d == 0 {
        "0"
    } else if d == 1 {
        "1"
    } else if d == 2 {
        "2"
    } else if d == 3 {
        "3"
    } else if d == 4 {
        "4"
    } else if d == 5 {
        "5"
    } else if d == 6 {
        "6"
    } else if d == 7 {
        "7"
    } else if d == 8 {
        "8"
    } else {
        "9"
    }
}

/// Appends the decimal notation of `n` to `s`.
fn append_decimal(s: &mut String, n: u32)
    ensures
        final(s)@ == old(s)@ + decimal(n as nat),
    decreases n,
{
    if n >= 10 {
        append_decimal(s, n / 10);
    }
    let d = digit_str(n % 10);
    s.append(d);
    assert(final(s)@ =~= old(s)@ + decimal(n as nat));
}

/// The name `netsh` gives an address family.
pub open spec fn family_name(is_ipv4: bool) -> Seq<char> {
    if is_ipv4 {
        "ipv4"@
    } else {
        "ipv6"@
    }
}

fn family_str(is_ipv4: bool) -> (r: &'static str)
    ensures
        r@ == family_name(is_ipv4),
{
    if is_ipv4 {
        "ipv4"
    } else {
        "ipv6"
    }
}

/// The command that renames the interface `old_name` to `new_name`.
pub open spec fn rename_command(old_name: Seq<char>, new_name: Seq<char>) -> Seq<char> {
    " netsh interface set interface name="@ + str_debug(old_name) + " newname="@ + str_debug(new_name)
}

/// The command that hands the DNS servers of interface `index` back to DHCP.
pub open spec fn clear_dns_command(index: u32, is_ipv4: bool) -> Seq<char> {
    "netsh interface "@ + family_name(is_ipv4) + " set dnsservers "@ + decimal(index as nat) + " source=dhcp"@
}

/// The command that sets `addr` as the primary DNS server of interface
/// `index`.
pub open spec fn primary_dns_command(index: u32, is_ipv4: bool, addr: Seq<char>) -> Seq<char> {
    "netsh interface "@ + family_name(is_ipv4) + " set dnsservers "@ + decimal(index as nat) + " static "@ + addr + " primary"@
}

/// The command that adds `addr` as DNS server number `pos` of interface
/// `index`.
pub open spec fn secondary_dns_command(index: u32, is_ipv4: bool, addr: Seq<char>, pos: u32) -> Seq<char> {
    "netsh interface "@ + family_name(is_ipv4) + " add dnsservers "@ + decimal(index as nat) + " "@ + addr + " index="@ + decimal(
        pos as nat,
    )
}

/// The command that renames the interface `old_name` to `new_name`, both
/// quoted as `Debug` quotes them.
pub fn set_interface_name(old_name: &str, new_name: &str) -> (cmd: String)
    ensures
        cmd@ == rename_command(old_name@, new_name@),
{
    let mut cmd = String::from_str(" netsh interface set interface name=");
    let q_old = debug_quoted(old_name);
    cmd.append(q_old.as_str());
    cmd.append(" newname=");
    let q_new = debug_quoted(new_name);
    cmd.append(q_new.as_str());
    cmd
}

/// The command that hands the DNS servers of interface `index` back to DHCP.
pub fn clear_dns_servers(index: u32, is_ipv4: bool) -> (cmd: String)
    ensures
        cmd@ == clear_dns_command(index, is_ipv4),
{
    let mut cmd = String::from_str("netsh interface ");
    cmd.append(family_str(is_ipv4));
    cmd.append(" set dnsservers ");
    append_decimal(&mut cmd, index);
    cmd.append(" source=dhcp");
    cmd
}

/// The command that sets `addr` as the primary DNS server of interface
/// `index`.
pub fn set_primary_dns(index: u32, is_ipv4: bool, addr: &str) -> (cmd: String)
    ensures
        cmd@ == primary_dns_command(index, is_ipv4, addr@),
{
    let mut cmd = String::from_str("netsh interface ");
    cmd.append(family_str(is_ipv4));
    cmd.append(" set dnsservers ");
    append_decimal(&mut cmd, index);
    cmd.append(" static ");
    cmd.append(addr);
    cmd.append(" primary");
    cmd
}

/// The command that adds `addr` as DNS server number `index_pos` of
/// interface `index`.
pub fn add_secondary_dns(index: u32, is_ipv4: bool, addr: &str, index_pos: u32) -> (cmd: String)
    ensures
        cmd@ == secondary_dns_command(index, is_ipv4, addr@, index_pos),
{
    let mut cmd = String::from_str("netsh interface ");
    cmd.append(family_str(is_ipv4));
    cmd.append(" add dnsservers ");
    append_decimal(&mut cmd, index);
    cmd.append(" ");
    cmd.append(addr);
    cmd.append(" index=");
    append_decimal(&mut cmd, index_pos);
    cmd
}

/// Why a list of DNS servers is refused.
#[derive(Debug, Clone, Copy, PartialEq, Eq, Structural)]
pub enum DnsServersError {
    /// The list is empty.
    Empty,
    /// The list mixes IPv4 and IPv6 addresses.
    MixedFamilies,
}

/// Each server as whether it is IPv4 and the text of its address.
pub open spec fn server_views(servers: Seq<(bool, String)>) -> Seq<(bool, Seq<char>)> {
    Seq::new(servers.len(), |i: int| (servers[i].0, servers[i].1@))
}

/// The characters of each string.
pub open spec fn strings_view(v: Seq<String>) -> Seq<Seq<char>> {
    Seq::new(v.len(), |i: int| v[i]@)
}

/// The commands that make `servers` (each: whether it is IPv4, and the text
/// of its address) the DNS servers of interface `index`, in the order they
/// are to run: clear the list, set the first server as primary, then add
/// each other one at position 2, 3 and on. An empty list, or one that mixes
/// address families, is refused.
pub open spec fn dns_commands(index: u32, servers: Seq<(bool, Seq<char>)>) -> Result<Seq<Seq<char>>, DnsServersError> {
    if servers.len() == 0 {
        Err(DnsServersError::Empty)
    } else if exists|i: int| 0 <= i < servers.len() && #[trigger] servers[i].0 != servers[0].0 {
        Err(DnsServersError::MixedFamilies)
    } else {
        let v4 = servers[0].0;
        Ok(
            seq![clear_dns_command(index, v4), primary_dns_command(index, v4, servers[0].1)] + Seq::new(
                (servers.len() - 1) as nat,
                |i: int| secondary_dns_command(index, v4, servers[i + 1].1, ((i + 2) % 0x1_0000_0000) as u32),
            ),
        )
    }
}

/// The commands that make `servers` the DNS servers of interface `index`,
/// as [`dns_commands`] says; they are to run in order, stopping at the
/// first that fails.
pub fn set_dns_servers(index: u32, servers: &[(bool, String)]) -> (r: Result<Vec<String>, DnsServersError>)
    ensures
        match r {
            Ok(v) => dns_commands(index, server_views(servers@)) == Ok::<Seq<Seq<char>>, DnsServersError>(strings_view(v@)),
            Err(e) => dns_commands(index, server_views(servers@)) == Err::<Seq<Seq<char>>, DnsServersError>(e),
        },
{
    let ghost views = server_views(servers@);
    let n = servers.len();
    if n == 0 {
        return Err(DnsServersError::Empty);
    }
    let is_ipv4 = servers[0].0;
    let mut k: usize = 0;
    while k < n
        invariant
            n == servers@.len(),
            views == server_views(servers@),
            is_ipv4 == views[0].0,
            k <= n,
            forall|i: int| 0 <= i < k ==> views[i].0 == is_ipv4,
        decreases n - k,
    {
        if servers[k].0 != is_ipv4 {
            assert(views[k as int].0 != views[0].0);
            return Err(DnsServersError::MixedFamilies);
        }
        k = k + 1;
    }
    assert(!exists|i: int| 0 <= i < views.len() && #[trigger] views[i].0 != views[0].0);
    let ghost expected = dns_commands(index, views)->Ok_0;
    let mut cmds: Vec<String> = Vec::new();
    cmds.push(clear_dns_servers(index, is_ipv4));
    cmds.push(set_primary_dns(index, is_ipv4, servers[0].1.as_str()));
    let mut i: usize = 1;
    while i < n
        invariant
            n == servers@.len(),
            views == server_views(servers@),
            is_ipv4 == views[0].0,
            1 <= i <= n,
            expected == dns_commands(index, views)->Ok_0,
            dns_commands(index, views) is Ok,
            strings_view(cmds@) == expected.take(i + 1),
            expected.len() == n + 1,
        decreases n - i,
    {
        let pos = ((i as u64 + 1) % 0x1_0000_0000) as u32;
        let cmd = add_secondary_dns(index, is_ipv4, servers[i].1.as_str(), pos);
        let ghost before = strings_view(cmds@);
        cmds.push(cmd);
        assert(strings_view(cmds@) =~= before.push(cmd@));
        assert(expected[i + 1] == secondary_dns_command(index, is_ipv4, views[i as int].1, ((i - 1 + 2) % 0x1_0000_0000) as u32));
        assert(expected.take(i + 2) =~= expected.take(i + 1).push(expected[i + 1]));
        i = i + 1;
    }
    assert(expected.take(n + 1) =~= expected);
    Ok(cmds)
}


/// What `encoding_rs::GBK.decode` makes of `bytes`: the text they hold in
/// GBK (or in the encoding a byte order mark at their start names), with
/// malformed sequences replaced by U+FFFD.
pub uninterp spec fn gbk_decoded(bytes: Seq<u8>) -> Seq<char>;

/// What `std::str::from_utf8` makes of `bytes`: the text they hold where
/// they are valid UTF-8, and `None` where they are not.
pub uninterp spec fn utf8_decoded(bytes: Seq<u8>) -> Option<Seq<char>>;

/// `encoding_rs::Encoding::decode` on `GBK`, keeping only the text; its
/// result is [`gbk_decoded`] of the bytes.
#[verifier::external_body]
fn gbk_decode(bytes: &[u8]) -> (s: String)
    ensures
        s@ == gbk_decoded(bytes@),
{
    let (msg, _, _) = GBK.decode(bytes);
    msg.to_string()
}

/// `std::str::from_utf8`, with the text taken as a `String`; its result is
/// [`utf8_decoded`] of the bytes.
#[verifier::external_body]
fn utf8_decode(bytes: &[u8]) -> (r: Option<String>)
    ensures
        match r {
            Some(t) => utf8_decoded(bytes@) == Some(t@),
            None => utf8_decoded(bytes@) is None,
        },
{
    match std::str::from_utf8(bytes) {
        Ok(t) => Some(t.to_string()),
        Err(_) => None,
    }
}

/// Whether `c` is white space in the sense of Unicode's `White_Space`
/// property, as `char::is_whitespace` and `str::trim` take it.
pub open spec fn is_white_space(c: char) -> bool {
    let v = c as u32;
    (0x9 <= v <= 0xD) || v == 0x20 || v == 0x85 || v == 0xA0 || v == 0x1680 || (0x2000 <= v <= 0x200A) || v == 0x2028
        || v == 0x2029 || v == 0x202F || v == 0x205F || v == 0x3000
}

/// `s` without its leading white space.
pub open spec fn trim_start_spec(s: Seq<char>) -> Seq<char>
    decreases s.len(),
{
    if s.len() > 0 && is_white_space(s[0]) {
        trim_start_spec(s.drop_first())
    } else {
        s
    }
}

/// `s` without its trailing white space.
pub open spec fn trim_end_spec(s: Seq<char>) -> Seq<char>
    decreases s.len(),
{
    if s.len() > 0 && is_white_space(s.last()) {
        trim_end_spec(s.drop_last())
    } else {
        s
    }
}

/// `s` without leading and trailing white space, as `str::trim` leaves it.
pub open spec fn trimmed(s: Seq<char>) -> Seq<char> {
    trim_end_spec(trim_start_spec(s))
}

fn white_space(c: char) -> (b: bool)
    ensures
        b == is_white_space(c),
{
    let v = c as u32;
    (0x9 <= v && v <= 0xD) || v == 0x20 || v == 0x85 || v == 0xA0 || v == 0x1680 || (0x2000 <= v && v <= 0x200A)
        || v == 0x2028 || v == 0x2029 || v == 0x202F || v == 0x205F || v == 0x3000
}

/// `s` without leading and trailing white space.
pub fn trim(s: &str) -> (r: String)
    ensures
        r@ == trimmed(s@),
{
    let n = s.unicode_len();
    let mut i: usize = 0;
    assert(s@.subrange(0, n as int) =~= s@);
    while i < n && white_space(s.get_char(i))
        invariant
            n == s@.len(),
            i <= n,
            trim_start_spec(s@) == trim_start_spec(s@.subrange(i as int, n as int)),
        decreases n - i,
    {
        assert(s@.subrange(i as int, n as int).drop_first() =~= s@.subrange(i + 1, n as int));
        i = i + 1;
    }
    assert(trim_start_spec(s@.subrange(i as int, n as int)) == s@.subrange(i as int, n as int));
    let mut j: usize = n;
    while j > i && white_space(s.get_char(j - 1))
        invariant
            n == s@.len(),
            i <= j <= n,
            trim_end_spec(s@.subrange(i as int, n as int)) == trim_end_spec(s@.subrange(i as int, j as int)),
        decreases j,
    {
        assert(s@.subrange(i as int, j as int).drop_last() =~= s@.subrange(i as int, j - 1));
        j = j - 1;
    }
    assert(trim_end_spec(s@.subrange(i as int, j as int)) == s@.subrange(i as int, j as int));
    s.substring_char(i, j).to_owned()
}

/// The text of a command's output: the bytes read as UTF-8 where they are
/// valid UTF-8, and as GBK otherwise.
pub open spec fn output_text(bytes: Seq<u8>) -> Seq<char> {
    match utf8_decoded(bytes) {
        Some(t) => t,
        None => gbk_decoded(bytes),
    }
}

/// The message of a failed command: its error output where there is any,
/// else its standard output, else nothing.
pub open spec fn failure_message(stdout: Seq<u8>, stderr: Seq<u8>) -> Seq<char> {
    if stderr.len() > 0 {
        output_text(stderr)
    } else if stdout.len() > 0 {
        output_text(stdout)
    } else {
        Seq::empty()
    }
}

/// The error text reported for the failed command `cmd` with message `msg`.
pub open spec fn command_error(cmd: Seq<char>, msg: Seq<char>) -> Seq<char> {
    "cmd=\""@ + cmd + "\",out=\""@ + trimmed(msg) + "\""@
}

fn output_string(bytes: &[u8]) -> (t: String)
    ensures
        t@ == output_text(bytes@),
{
    match utf8_decode(bytes) {
        Some(t) => t,
        None => gbk_decode(bytes),
    }
}

/// The outcome the Windows back end reports for the command `cmd` that
/// exited with status `success` and wrote `stdout` and `stderr`: success,
/// or the error text [`command_error`] of its [`failure_message`].
pub fn command_outcome(cmd: &str, success: bool, stdout: &[u8], stderr: &[u8]) -> (r: Result<(), String>)
    ensures
        success ==> r == Ok::<(), String>(()),
        !success ==> (r matches Err(e) && e@ == command_error(cmd@, failure_message(stdout@, stderr@))),
{
    if success {
        return Ok(());
    }
    let msg = if stderr.len() > 0 {
        output_string(stderr)
    } else if stdout.len() > 0 {
        output_string(stdout)
    } else {
        String::new()
    };
    let t = trim(msg.as_str());
    let mut e = String::from_str("cmd=\"");
    e.append(cmd);
    e.append("\",out=\"");
    e.append(t.as_str());
    e.append("\"");
    Err(e)
}

} // verus!
