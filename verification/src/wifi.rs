//! The active Wi-Fi link, read from `iw` on Linux and `netsh` on Windows.

use vstd::prelude::*;

use crate::number;
use crate::number::Reading;
use crate::text;

verus! {

/// The current Wi-Fi link. A field is `None` where the platform does not
/// report it.
#[derive(Clone, Debug, PartialEq, Eq)]
pub struct WifiInfo {
    pub ssid: Option<String>,
    pub bssid: Option<String>,
    pub rssi_dbm: Option<i64>,
    pub quality_pct: Option<Reading>,
    pub link_mbps: Option<Reading>,
    pub freq_mhz: Option<i64>,
    pub channel: Option<i64>,
    pub band: Option<String>,
}

/// The link as plain values.
#[verifier::ext_equal]
pub struct WifiView {
    pub ssid: Option<Seq<char>>,
    pub bssid: Option<Seq<char>>,
    pub rssi_dbm: Option<i64>,
    pub quality_pct: Option<Reading>,
    pub link_mbps: Option<Reading>,
    pub freq_mhz: Option<i64>,
    pub channel: Option<i64>,
    pub band: Option<Seq<char>>,
}

impl View for WifiInfo {
    type V = WifiView;

    open spec fn view(&self) -> WifiView {
        WifiView {
            ssid: text::opt_text(self.ssid),
            bssid: text::opt_text(self.bssid),
            rssi_dbm: self.rssi_dbm,
            quality_pct: self.quality_pct,
            link_mbps: self.link_mbps,
            freq_mhz: self.freq_mhz,
            channel: self.channel,
            band: text::opt_text(self.band),
        }
    }
}

/// A link of which nothing is known.
pub open spec fn unknown() -> WifiView {
    WifiView {
        ssid: None,
        bssid: None,
        rssi_dbm: None,
        quality_pct: None,
        link_mbps: None,
        freq_mhz: None,
        channel: None,
        band: None,
    }
}

impl Default for WifiInfo {
    fn default() -> (r: WifiInfo)
        ensures
            r@ == unknown(),
    {
        WifiInfo {
            ssid: None,
            bssid: None,
            rssi_dbm: None,
            quality_pct: None,
            link_mbps: None,
            freq_mhz: None,
            channel: None,
            band: None,
        }
    }
}

// ---------------------------------------------------------------------------
// Frequencies
// ---------------------------------------------------------------------------

/// The band label (GHz) of a frequency in MHz.
pub open spec fn band(mhz: int) -> Seq<char> {
    if mhz < 2500 {
        "2.4"@
    } else if mhz < 5925 {
        "5"@
    } else {
        "6"@
    }
}

pub fn band_from_freq(mhz: i64) -> (r: &'static str)
    ensures
        r@ == band(mhz as int),
{
    if mhz < 2500 {
        "2.4"
    } else if mhz < 5925 {
        "5"
    } else {
        "6"
    }
}

/// The channel of a frequency: 5 MHz steps from 2407 MHz, channel 14 by itself,
/// and 5 MHz steps from 5000 MHz.
pub open spec fn channel(mhz: int) -> Option<int> {
    if 2412 <= mhz <= 2472 {
        Some((mhz - 2407) / 5)
    } else if mhz == 2484 {
        Some(14)
    } else if 5000 <= mhz <= 7115 {
        Some((mhz - 5000) / 5)
    } else {
        None
    }
}

pub fn channel_from_freq(mhz: i64) -> (r: Option<i64>)
    ensures
        match r {
            Some(c) => channel(mhz as int) == Some(c as int),
            None => channel(mhz as int) is None,
        },
{
    if 2412 <= mhz && mhz <= 2472 {
        Some((mhz - 2407) / 5)
    } else if mhz == 2484 {
        Some(14)
    } else if 5000 <= mhz && mhz <= 7115 {
        Some((mhz - 5000) / 5)
    } else {
        None
    }
}

// ---------------------------------------------------------------------------
// iw
// ---------------------------------------------------------------------------

pub open spec fn first_word(s: Seq<char>) -> Option<Seq<char>> {
    let w = text::words(s);
    if w.len() > 0 {
        Some(w[0])
    } else {
        None
    }
}

pub fn read_first_word<'a>(s: &'a [char]) -> (r: Option<&'a [char]>)
    ensures
        text::opt_view(r) == first_word(s@),
{
    let w = text::split_words(s);
    let ghost v = text::words(s@);
    assert(w@.len() == v.len());
    if w.len() > 0 {
        assert(v[0] == w@[0]@);
        Some(w[0])
    } else {
        None
    }
}

/// What is known after one more line of `iw dev <iface> link`.
pub open spec fn iw_line(info: WifiView, line: Seq<char>) -> WifiView {
    let t = text::trim(line);
    match text::after_prefix(t, "Connected to "@) {
        Some(rest) => WifiView {
            bssid: match first_word(rest) {
                Some(w) => Some(text::lowercase(w)),
                None => None,
            },
            ..info
        },
        None => match text::after_prefix(t, "SSID: "@) {
            Some(rest) => WifiView { ssid: Some(text::trim(rest)), ..info },
            None => match text::after_prefix(t, "freq: "@) {
                Some(rest) => WifiView { freq_mhz: number::parse_i64(text::trim(rest)), ..info },
                None => match text::after_prefix(t, "signal: "@) {
                    Some(rest) => WifiView {
                        rssi_dbm: match first_word(rest) {
                            Some(w) => number::parse_i64(w),
                            None => None,
                        },
                        ..info
                    },
                    None => match text::after_prefix(t, "tx bitrate: "@) {
                        Some(rest) => WifiView {
                            link_mbps: match first_word(rest) {
                                Some(w) => number::reading(w),
                                None => None,
                            },
                            ..info
                        },
                        None => info,
                    },
                },
            },
        },
    }
}

pub open spec fn iw_lines(lines: Seq<Seq<char>>) -> WifiView
    decreases lines.len(),
{
    if lines.len() == 0 {
        unknown()
    } else {
        iw_line(iw_lines(lines.drop_last()), lines.last())
    }
}

/// Band and channel follow from the frequency.
pub open spec fn with_frequency(info: WifiView) -> WifiView {
    match info.freq_mhz {
        Some(f) => WifiView {
            band: Some(band(f as int)),
            channel: match channel(f as int) {
                Some(c) => Some(c as i64),
                None => None,
            },
            ..info
        },
        None => info,
    }
}

fn read_iw_line(info: &mut WifiInfo, line: &[char])
    ensures
        final(info)@ == iw_line(old(info)@, line@),
{
    let t = text::trimmed(line);
    if let Some(rest) = text::strip_prefix(t, "Connected to ") {
        info.bssid = match read_first_word(rest) {
            Some(w) => Some(text::lowered(w)),
            None => None,
        };
    } else if let Some(rest) = text::strip_prefix(t, "SSID: ") {
        info.ssid = Some(text::string(text::trimmed(rest)));
    } else if let Some(rest) = text::strip_prefix(t, "freq: ") {
        info.freq_mhz = number::read_i64(text::trimmed(rest));
    } else if let Some(rest) = text::strip_prefix(t, "signal: ") {
        info.rssi_dbm = match read_first_word(rest) {
            Some(w) => number::read_i64(w),
            None => None,
        };
    } else if let Some(rest) = text::strip_prefix(t, "tx bitrate: ") {
        info.link_mbps = match read_first_word(rest) {
            Some(w) => number::read_decimal(w),
            None => None,
        };
    }
}

/// Reads `iw dev <iface> link` output.
pub fn parse_iw_link(text: &str) -> (r: WifiInfo)
    ensures
        r@ == with_frequency(iw_lines(text::lines(text@))),
{
    let all = text::chars(text);
    let lines = text::split_lines(&all);
    let ghost v = text::lines(text@);
    let mut info = WifiInfo::default();
    let mut i: usize = 0;
    while i < lines.len()
        invariant
            i <= lines.len(),
            text::views(lines@) == v,
            info@ == iw_lines(v.take(i as int)),
        decreases lines.len() - i,
    {
        assert(v.take(i + 1).drop_last() == v.take(i as int));
        assert(v.take(i + 1).last() == lines@[i as int]@);
        read_iw_line(&mut info, lines[i]);
        i += 1;
    }
    assert(v.take(lines@.len() as int) == v);
    if let Some(f) = info.freq_mhz {
        info.band = Some(band_from_freq(f).to_string());
        info.channel = channel_from_freq(f);
    }
    info
}

/// The interface of the first `Interface <name>` line of `iw dev`.
pub open spec fn iw_interface(lines: Seq<Seq<char>>) -> Option<Seq<char>>
    decreases lines.len(),
{
    if lines.len() == 0 {
        None
    } else {
        match text::after_prefix(text::trim(lines[0]), "Interface "@) {
            Some(rest) => Some(text::trim(rest)),
            None => iw_interface(lines.skip(1)),
        }
    }
}

/// Reads the Wi-Fi interface's name from `iw dev` output.
pub fn parse_iw_interface(text: &str) -> (r: Option<String>)
    ensures
        text::opt_text(r) == iw_interface(text::lines(text@)),
{
    let all = text::chars(text);
    let lines = text::split_lines(&all);
    let ghost v = text::lines(text@);
    let mut i: usize = 0;
    assert(v.skip(0) == v);
    while i < lines.len()
        invariant
            i <= lines.len(),
            text::views(lines@) == v,
            v == text::lines(text@),
            iw_interface(v) == iw_interface(v.skip(i as int)),
        decreases lines.len() - i,
    {
        assert(v.skip(i as int)[0] == lines@[i as int]@);
        assert(v.skip(i as int).skip(1) == v.skip(i + 1));
        if let Some(rest) = text::strip_prefix(text::trimmed(lines[i]), "Interface ") {
            return Some(text::string(text::trimmed(rest)));
        }
        i += 1;
    }
    None
}

// ---------------------------------------------------------------------------
// netsh
// ---------------------------------------------------------------------------

/// A rough signal level from a quality percentage: 0 % is -100 dBm and 100 % is
/// -50 dBm, cut to whole dBm towards zero.
pub open spec fn level(quality: Reading) -> i64 {
    let twice = quality.billionths - 200_000_000_000;
    if twice >= 0 {
        (twice / 2_000_000_000) as i64
    } else {
        -((-twice) / 2_000_000_000) as i64
    }
}

fn level_of(quality: Reading) -> (r: i64)
    ensures
        r == level(quality),
{
    let twice: i128 = quality.billionths as i128 - 200_000_000_000;
    if twice >= 0 {
        (twice / 2_000_000_000) as i64
    } else {
        let n: i128 = (-twice) / 2_000_000_000;
        (-n) as i64
    }
}

/// What is known after one more line of `netsh wlan show interfaces`.
pub open spec fn netsh_line(info: WifiView, line: Seq<char>) -> WifiView {
    match text::split_once(line, ':') {
        Some(kv) => {
            let key = text::trim(kv.0);
            let val = text::trim(kv.1);
            if key == "SSID"@ {
                WifiView { ssid: Some(val), ..info }
            } else if key == "BSSID"@ {
                WifiView { bssid: Some(text::lowercase(val)), ..info }
            } else if key == "Channel"@ {
                WifiView { channel: number::parse_i64(val), ..info }
            } else if key == "Signal"@ {
                let pct = number::reading(text::trim(text::trim_end_str(val, "%"@)));
                WifiView {
                    quality_pct: pct,
                    rssi_dbm: match pct {
                        Some(p) => Some(level(p)),
                        None => None,
                    },
                    ..info
                }
            } else if (key == "Receive rate (Mbps)"@ || key == "Transmit rate (Mbps)"@)
                && info.link_mbps is None {
                WifiView { link_mbps: number::reading(val), ..info }
            } else {
                info
            }
        },
        None => info,
    }
}

pub open spec fn netsh_lines(lines: Seq<Seq<char>>) -> WifiView
    decreases lines.len(),
{
    if lines.len() == 0 {
        unknown()
    } else {
        netsh_line(netsh_lines(lines.drop_last()), lines.last())
    }
}

/// The band follows from the channel.
pub open spec fn with_channel(info: WifiView) -> WifiView {
    match info.channel {
        Some(c) => WifiView {
            band: Some(
                if c <= 14 {
                    "2.4"@
                } else {
                    "5"@
                },
            ),
            ..info
        },
        None => info,
    }
}

fn read_netsh_line(info: &mut WifiInfo, line: &[char])
    ensures
        final(info)@ == netsh_line(old(info)@, line@),
{
    if let Some((k, v)) = text::split_at_char(line, ':') {
        let key = text::trimmed(k);
        let val = text::trimmed(v);
        if text::same(key, "SSID") {
            info.ssid = Some(text::string(val));
        } else if text::same(key, "BSSID") {
            info.bssid = Some(text::lowered(val));
        } else if text::same(key, "Channel") {
            info.channel = number::read_i64(val);
        } else if text::same(key, "Signal") {
            proof {
                reveal_strlit("%");
                assert("%"@.len() == 1);
            }
            let pct = number::read_decimal(text::trimmed(text::strip_end_all(val, "%")));
            info.quality_pct = pct;
            info.rssi_dbm = match pct {
                Some(p) => Some(level_of(p)),
                None => None,
            };
        } else if text::same(key, "Receive rate (Mbps)") || text::same(key, "Transmit rate (Mbps)") {
            if info.link_mbps.is_none() {
                info.link_mbps = number::read_decimal(val);
            }
        }
    }
}

/// Reads `netsh wlan show interfaces` output.
pub fn parse_netsh(text: &str) -> (r: WifiInfo)
    ensures
        r@ == with_channel(netsh_lines(text::lines(text@))),
{
    let all = text::chars(text);
    let lines = text::split_lines(&all);
    let ghost v = text::lines(text@);
    let mut info = WifiInfo::default();
    let mut i: usize = 0;
    while i < lines.len()
        invariant
            i <= lines.len(),
            text::views(lines@) == v,
            info@ == netsh_lines(v.take(i as int)),
        decreases lines.len() - i,
    {
        assert(v.take(i + 1).drop_last() == v.take(i as int));
        assert(v.take(i + 1).last() == lines@[i as int]@);
        read_netsh_line(&mut info, lines[i]);
        i += 1;
    }
    assert(v.take(lines@.len() as int) == v);
    if let Some(c) = info.channel {
        info.band = Some((if c <= 14 { "2.4" } else { "5" }).to_string());
    }
    info
}

// ---------------------------------------------------------------------------
// The link
// ---------------------------------------------------------------------------

fn is_unknown(w: &WifiInfo) -> (r: bool)
    ensures
        r == (w@ == unknown()),
{
    w.ssid.is_none() && w.bssid.is_none() && w.rssi_dbm.is_none() && w.quality_pct.is_none()
        && w.link_mbps.is_none() && w.freq_mhz.is_none() && w.channel.is_none() && w.band.is_none()
}

/// The link that a tool's output describes; `None` if it describes none.
pub open spec fn link(output: Seq<char>, windows: bool) -> Option<WifiView> {
    let info = if windows {
        with_channel(netsh_lines(text::lines(output)))
    } else {
        with_frequency(iw_lines(text::lines(output)))
    };
    if !windows && text::contains(output, "Not connected"@) {
        None
    } else if info == unknown() {
        None
    } else {
        Some(info)
    }
}

pub fn wifi_link(output: &str, windows: bool) -> (r: Option<WifiInfo>)
    ensures
        match r {
            Some(w) => link(output@, windows) == Some(w@),
            None => link(output@, windows) is None,
        },
{
    let info = if windows {
        parse_netsh(output)
    } else {
        if text::has(&text::chars(output), "Not connected") {
            return None;
        }
        parse_iw_link(output)
    };
    if is_unknown(&info) {
        None
    } else {
        Some(info)
    }
}

/// A network below 2.5 GHz is in the band of 2.4 GHz, one from 5.925 GHz on in that of 6 GHz
/// and one between them in that of 5 GHz.
pub proof fn law_bands_begin_at_their_frequency(mhz: int)
    ensures
        band(mhz) == "2.4"@ <==> mhz < 2500,
        band(mhz) == "5"@ <==> 2500 <= mhz < 5925,
        band(mhz) == "6"@ <==> 5925 <= mhz,
{
    reveal_strlit("2.4");
    reveal_strlit("5");
    reveal_strlit("6");
    assert("2.4"@.len() == 3 && "5"@[0] == '5' && "6"@[0] == '6');
}

/// Channels are 5 MHz apart: the first of the lower band lies at 2412 MHz and its
/// thirteenth at 2472, and those above count from 5000 MHz. The fourteenth lies apart.
pub proof fn law_channels_are_five_megahertz_apart(mhz: int)
    ensures
        channel(2412) == Some(1int),
        channel(2472) == Some(13int),
        channel(2484) == Some(14int),
        channel(5000) == Some(0int),
        2412 <= mhz <= 2467 ==> channel(mhz) is Some && channel(mhz + 5) == Some(
            channel(mhz)->0 + 1,
        ),
        5000 <= mhz <= 7110 ==> channel(mhz) is Some && channel(mhz + 5) == Some(
            channel(mhz)->0 + 1,
        ),
        5000 <= mhz <= 7115 ==> 5 * channel(mhz)->0 <= mhz - 5000 < 5 * (channel(mhz)->0 + 1),
        2412 <= mhz <= 2472 ==> 5 * channel(mhz)->0 <= mhz - 2407 < 5 * (channel(mhz)->0 + 1),
        mhz < 2412 || 2472 < mhz < 2484 || 2484 < mhz < 5000 || mhz > 7115 ==> channel(mhz) is None,
{
}

proof fn lemma_connected_line(rest: Seq<char>)
    ensures
        text::after_prefix("Connected to "@ + rest, "Connected to "@) == Some(rest),
{
    text::law_texts_start_and_end_with_a_pattern("Connected to "@, rest);
}

proof fn lemma_ssid_line(rest: Seq<char>)
    ensures
        text::after_prefix("SSID: "@ + rest, "SSID: "@) == Some(rest),
        !text::starts("SSID: "@ + rest, "Connected to "@),
{
    text::law_texts_start_and_end_with_a_pattern("SSID: "@, rest);
    reveal_strlit("SSID: ");
    reveal_strlit("Connected to ");
    text::lemma_other_start("SSID: "@, rest, "Connected to "@, 0);
}

proof fn lemma_freq_line(rest: Seq<char>)
    ensures
        text::after_prefix("freq: "@ + rest, "freq: "@) == Some(rest),
        !text::starts("freq: "@ + rest, "Connected to "@),
        !text::starts("freq: "@ + rest, "SSID: "@),
{
    text::law_texts_start_and_end_with_a_pattern("freq: "@, rest);
    reveal_strlit("freq: ");
    reveal_strlit("Connected to ");
    reveal_strlit("SSID: ");
    text::lemma_other_start("freq: "@, rest, "Connected to "@, 0);
    text::lemma_other_start("freq: "@, rest, "SSID: "@, 0);
}

proof fn lemma_signal_line(rest: Seq<char>)
    ensures
        text::after_prefix("signal: "@ + rest, "signal: "@) == Some(rest),
        !text::starts("signal: "@ + rest, "Connected to "@),
        !text::starts("signal: "@ + rest, "SSID: "@),
        !text::starts("signal: "@ + rest, "freq: "@),
{
    text::law_texts_start_and_end_with_a_pattern("signal: "@, rest);
    reveal_strlit("signal: ");
    reveal_strlit("Connected to ");
    reveal_strlit("SSID: ");
    reveal_strlit("freq: ");
    text::lemma_other_start("signal: "@, rest, "Connected to "@, 0);
    text::lemma_other_start("signal: "@, rest, "SSID: "@, 0);
    text::lemma_other_start("signal: "@, rest, "freq: "@, 0);
}

proof fn lemma_bitrate_line(rest: Seq<char>)
    ensures
        text::after_prefix("tx bitrate: "@ + rest, "tx bitrate: "@) == Some(rest),
        !text::starts("tx bitrate: "@ + rest, "Connected to "@),
        !text::starts("tx bitrate: "@ + rest, "SSID: "@),
        !text::starts("tx bitrate: "@ + rest, "freq: "@),
        !text::starts("tx bitrate: "@ + rest, "signal: "@),
{
    text::law_texts_start_and_end_with_a_pattern("tx bitrate: "@, rest);
    reveal_strlit("tx bitrate: ");
    reveal_strlit("Connected to ");
    reveal_strlit("SSID: ");
    reveal_strlit("freq: ");
    reveal_strlit("signal: ");
    text::lemma_other_start("tx bitrate: "@, rest, "Connected to "@, 0);
    text::lemma_other_start("tx bitrate: "@, rest, "SSID: "@, 0);
    text::lemma_other_start("tx bitrate: "@, rest, "freq: "@, 0);
    text::lemma_other_start("tx bitrate: "@, rest, "signal: "@, 0);
}

proof fn lemma_no_start(t: Seq<char>, p: Seq<char>)
    requires
        !p.is_prefix_of(t),
    ensures
        !text::starts(t, p),
{
    text::law_texts_start_and_end_with_a_pattern(p, t);
}

/// Each line of a link tells one thing by the words that it starts with and leaves the
/// others. Lines that start otherwise tell nothing.
#[verifier::rlimit(40)]
pub proof fn law_link_lines_tell_one_thing(lines: Seq<Seq<char>>, line: Seq<char>, rest: Seq<char>)
    ensures
        ({
            let t = text::trim(line);
            let before = iw_lines(lines);
            let after = iw_lines(lines.push(line));
            &&& t == "Connected to "@ + rest ==> after == (WifiView {
                bssid: if text::words(rest).len() > 0 {
                    Some(text::lowercase(text::words(rest)[0]))
                } else {
                    None
                },
                ..before
            })
            &&& t == "SSID: "@ + rest ==> after == (WifiView {
                ssid: Some(text::trim(rest)),
                ..before
            })
            &&& t == "freq: "@ + rest ==> after == (WifiView {
                freq_mhz: number::parse_i64(text::trim(rest)),
                ..before
            })
            &&& t == "signal: "@ + rest ==> after == (WifiView {
                rssi_dbm: if text::words(rest).len() > 0 {
                    number::parse_i64(text::words(rest)[0])
                } else {
                    None
                },
                ..before
            })
            &&& t == "tx bitrate: "@ + rest ==> after == (WifiView {
                link_mbps: if text::words(rest).len() > 0 {
                    number::reading(text::words(rest)[0])
                } else {
                    None
                },
                ..before
            })
            &&& !"Connected to "@.is_prefix_of(t) && !"SSID: "@.is_prefix_of(t)
                && !"freq: "@.is_prefix_of(t) && !"signal: "@.is_prefix_of(t)
                && !"tx bitrate: "@.is_prefix_of(t) ==> after == before
        }),
        iw_lines(Seq::empty()) == unknown(),
{
    let t = text::trim(line);
    assert(lines.push(line).drop_last() == lines);
    if t == "Connected to "@ + rest {
        lemma_connected_line(rest);
    }
    if t == "SSID: "@ + rest {
        lemma_ssid_line(rest);
    }
    if t == "freq: "@ + rest {
        lemma_freq_line(rest);
    }
    if t == "signal: "@ + rest {
        lemma_signal_line(rest);
    }
    if t == "tx bitrate: "@ + rest {
        lemma_bitrate_line(rest);
    }
    if !"Connected to "@.is_prefix_of(t) && !"SSID: "@.is_prefix_of(t)
        && !"freq: "@.is_prefix_of(t) && !"signal: "@.is_prefix_of(t)
        && !"tx bitrate: "@.is_prefix_of(t) {
        lemma_no_start(t, "Connected to "@);
        lemma_no_start(t, "SSID: "@);
        lemma_no_start(t, "freq: "@);
        lemma_no_start(t, "signal: "@);
        lemma_no_start(t, "tx bitrate: "@);
    }
}

/// A frequency that is known gives the band and the channel, and nothing else changes.
pub proof fn law_frequency_gives_band_and_channel(info: WifiView)
    ensures
        ({
            let r = with_frequency(info);
            &&& info.freq_mhz is None ==> r == info
            &&& r.ssid == info.ssid && r.bssid == info.bssid && r.rssi_dbm == info.rssi_dbm
            &&& r.quality_pct == info.quality_pct && r.link_mbps == info.link_mbps
            &&& r.freq_mhz == info.freq_mhz
            &&& info.freq_mhz is Some ==> {
                &&& r.band == Some(band(info.freq_mhz->0 as int))
                &&& r.channel is Some <==> channel(info.freq_mhz->0 as int) is Some
                &&& r.channel is Some ==> r.channel->0 == channel(info.freq_mhz->0 as int)->0
            }
        }),
{
}

/// The wireless interface is named by the first line that starts with "Interface ".
pub proof fn law_first_interface_counts(
    before: Seq<Seq<char>>,
    line: Seq<char>,
    rest: Seq<char>,
    after: Seq<Seq<char>>,
)
    requires
        text::trim(line) == "Interface "@ + rest,
        forall|i: int|
            0 <= i < before.len() ==> !"Interface "@.is_prefix_of(text::trim(#[trigger] before[i])),
    ensures
        iw_interface(before + seq![line] + after) == Some(text::trim(rest)),
        iw_interface(before) is None,
    decreases before.len(),
{
    let v = before + seq![line] + after;
    text::law_texts_start_and_end_with_a_pattern("Interface "@, rest);
    if before.len() > 0 {
        let r = before.skip(1);
        text::law_texts_start_and_end_with_a_pattern("Interface "@, text::trim(before[0]));
        assert forall|i: int| 0 <= i < r.len() implies !"Interface "@.is_prefix_of(
            text::trim(#[trigger] r[i]),
        ) by {
            assert(r[i] == before[i + 1]);
        }
        law_first_interface_counts(r, line, rest, after);
        assert(v[0] == before[0]);
        assert(v.skip(1) == r + seq![line] + after);
    } else {
        assert(v[0] == line);
    }
}

/// A quality is turned into a level by the line through 0 % at -100 dBm and 100 % at
/// -50 dBm, cut to whole decibels.
pub proof fn law_level_follows_the_quality(percent: int)
    requires
        0 <= percent <= 100,
    ensures
        ({
            let q = Reading { billionths: (percent * 1_000_000_000) as i64 };
            &&& 2 * level(q) - 1 <= percent - 200 <= 2 * level(q)
            &&& percent % 2 == 0 ==> 2 * level(q) == percent - 200
        }),
        level(Reading { billionths: 0 }) == -100,
        level(Reading { billionths: 100_000_000_000 }) == -50,
{
}

/// Each line tells one thing by the key before its first colon and leaves the others. Of
/// the two rates the first that is told counts.
#[verifier::rlimit(40)]
pub proof fn law_keys_tell_one_thing(
    lines: Seq<Seq<char>>,
    line: Seq<char>,
    key: Seq<char>,
    val: Seq<char>,
)
    requires
        !key.contains(':'),
        line == key + seq![':'] + val,
    ensures
        ({
            let k = text::trim(key);
            let v = text::trim(val);
            let before = netsh_lines(lines);
            let after = netsh_lines(lines.push(line));
            &&& k == "SSID"@ ==> after == (WifiView { ssid: Some(v), ..before })
            &&& k == "BSSID"@ ==> after == (WifiView {
                bssid: Some(text::lowercase(v)),
                ..before
            })
            &&& k == "Channel"@ ==> after == (WifiView {
                channel: number::parse_i64(v),
                ..before
            })
            &&& k == "Signal"@ ==> {
                let q = number::reading(text::trim(text::trim_end_str(v, "%"@)));
                &&& after.quality_pct == q
                &&& q is None ==> after.rssi_dbm is None
                &&& q is Some ==> after.rssi_dbm == Some(level(q->0))
                &&& after == (WifiView {
                    quality_pct: after.quality_pct,
                    rssi_dbm: after.rssi_dbm,
                    ..before
                })
            }
            &&& k == "Receive rate (Mbps)"@ || k == "Transmit rate (Mbps)"@ ==> after == (WifiView {
                link_mbps: if before.link_mbps is Some {
                    before.link_mbps
                } else {
                    number::reading(v)
                },
                ..before
            })
            &&& k != "SSID"@ && k != "BSSID"@ && k != "Channel"@ && k != "Signal"@
                && k != "Receive rate (Mbps)"@ && k != "Transmit rate (Mbps)"@ ==> after == before
        }),
        netsh_lines(Seq::empty()) == unknown(),
{
    assert(lines.push(line).drop_last() == lines);
    text::law_texts_are_split_at_every_separator(key, ':', val);
    assert("SSID"@.len() == 4 && "BSSID"@.len() == 5 && "Channel"@.len() == 7
        && "Signal"@.len() == 6
        && "Receive rate (Mbps)"@.len() == 19 && "Transmit rate (Mbps)"@.len() == 20) by {
        reveal_strlit("SSID");
        reveal_strlit("BSSID");
        reveal_strlit("Channel");
        reveal_strlit("Signal");
        reveal_strlit("Receive rate (Mbps)");
        reveal_strlit("Transmit rate (Mbps)");
    }
}

/// A channel up to the fourteenth is in the lower band, one above in the band of 5 GHz.
pub proof fn law_channel_gives_the_band(info: WifiView)
    ensures
        ({
            let r = with_channel(info);
            &&& r == (WifiView { band: r.band, ..info })
            &&& info.channel is None ==> r.band == info.band
            &&& info.channel is Some && info.channel->0 <= 14 ==> r.band == Some("2.4"@)
            &&& info.channel is Some && info.channel->0 > 14 ==> r.band == Some("5"@)
        }),
{
}

/// There is no link where nothing is known of one, or where the text says so.
pub proof fn law_links_are_known_by_something(output: Seq<char>)
    ensures
        link(output, true) is None <==> with_channel(netsh_lines(text::lines(output))) == unknown(),
        link(output, true) is Some ==> link(output, true)->0 == with_channel(
            netsh_lines(text::lines(output)),
        ),
        text::contains(output, "Not connected"@) ==> link(output, false) is None,
        !text::contains(output, "Not connected"@) ==> (link(output, false) is None
            <==> with_frequency(iw_lines(text::lines(output))) == unknown()),
        link(output, false) is Some ==> link(output, false)->0 == with_frequency(
            iw_lines(text::lines(output)),
        ),
{
}

} // verus!
