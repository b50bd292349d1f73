//! Filtering and output settings, their defaults, and how command-line
//! options override them.

use vstd::prelude::*;
use crate::scan::Encoding;
use crate::text::chars_of;

verus! {

/// How the unique strings are ordered before output.
#[derive(Clone, Copy, PartialEq, Eq, Debug, Structural)]
pub enum SortOrder {
    /// By length in bytes (`l`).
    Length,
    /// By significance score (`p`, and any other name).
    Probability,
    /// By number of occurrences (`n`).
    Count,
}

impl SortOrder {
    pub open spec fn named(name: Seq<char>) -> SortOrder {
        if name == seq!['l'] {
            SortOrder::Length
        } else if name == seq!['n'] {
            SortOrder::Count
        } else {
            SortOrder::Probability
        }
    }

    pub fn from_name(name: &str) -> (r: SortOrder)
        ensures
            r == SortOrder::named(name@),
    {
        let cs = chars_of(name);
        if cs.len() == 1 && cs[0] == 'l' {
            assert(name@ =~= seq!['l']);
            SortOrder::Length
        } else if cs.len() == 1 && cs[0] == 'n' {
            assert(name@ =~= seq!['n']);
            SortOrder::Count
        } else {
            assert(name@ != seq!['l'] && name@ != seq!['n']) by {
                if name@ == seq!['l'] || name@ == seq!['n'] {
                    assert(cs@.len() == 1);
                }
            }
            SortOrder::Probability
        }
    }
}

/// How offsets are printed.
#[derive(Clone, Copy, PartialEq, Eq, Debug, Structural)]
pub enum OffsetFormat {
    /// Hexadecimal (`x`).
    Hex,
    /// Decimal (`d`, and any other name).
    Decimal,
}

impl OffsetFormat {
    pub open spec fn named(name: Seq<char>) -> OffsetFormat {
        if name == seq!['x'] {
            OffsetFormat::Hex
        } else {
            OffsetFormat::Decimal
        }
    }

    pub fn from_name(name: &str) -> (r: OffsetFormat)
        ensures
            r == OffsetFormat::named(name@),
    {
        let cs = chars_of(name);
        if cs.len() == 1 && cs[0] == 'x' {
            assert(name@ =~= seq!['x']);
            OffsetFormat::Hex
        } else {
            assert(name@ != seq!['x']) by {
                if name@ == seq!['x'] {
                    assert(cs@.len() == 1);
                }
            }
            OffsetFormat::Decimal
        }
    }
}

/// The settings that filtering, scanning and output read. (The significance
/// threshold, a floating-point number, is held by the program beside it.)
#[derive(Debug)]
pub struct Config {
    /// Reject strings made only of ASCII digits.
    pub no_number: bool,
    /// Reject strings without a vowel.
    pub mix_cons_voy: bool,
    /// Strings shorter than this (in bytes) get the stricter checks.
    pub rx_effective_length: usize,
    /// When false, short strings may hold no symbol at all.
    pub rx_symbole: bool,
    /// Short strings must contain a known letter pair.
    pub english_filter: bool,
    /// Print each unique string once.
    pub remove_duplicate: bool,
    /// Sort the unique strings before output.
    pub sort_significance: bool,
    pub debug: bool,
    pub sort_by: SortOrder,
    pub show_offset: Option<OffsetFormat>,
    pub match_regex: Option<String>,
    pub encoding: Encoding,
    /// Bytes of context to show on each side of a string.
    pub context: usize,
    /// Scan only the sections of this name.
    pub section: Option<String>,
    pub smart: bool,
    pub entropy: bool,
    pub base64: bool,
    pub xor: bool,
}

impl Config {
    pub open spec fn is_default(self) -> bool {
        &&& self.no_number
        &&& self.mix_cons_voy
        &&& self.rx_effective_length == 10
        &&& self.rx_symbole
        &&& self.english_filter
        &&& self.remove_duplicate
        &&& self.sort_significance
        &&& !self.debug
        &&& self.sort_by == SortOrder::Probability
        &&& self.show_offset is None
        &&& self.match_regex is None
        &&& self.encoding == Encoding::Single
        &&& self.context == 0
        &&& self.section is None
        &&& !self.smart
        &&& !self.entropy
        &&& !self.base64
        &&& !self.xor
    }
}

impl Default for Config {
    fn default() -> (r: Self)
        ensures
            r.is_default(),
    {
        Config {
            no_number: true,
            mix_cons_voy: true,
            rx_effective_length: 10,
            rx_symbole: true,
            english_filter: true,
            remove_duplicate: true,
            sort_significance: true,
            debug: false,
            sort_by: SortOrder::Probability,
            show_offset: None,
            match_regex: None,
            encoding: Encoding::Single,
            context: 0,
            section: None,
            smart: false,
            entropy: false,
            base64: false,
            xor: false,
        }
    }
}

/// The command-line options that override the configuration (all but the
/// threshold).
pub struct CliOptions {
    pub no_duplicate: bool,
    pub no_sort: bool,
    pub debug: bool,
    pub order: Option<String>,
    pub offset: Option<String>,
    pub regex: Option<String>,
    pub encoding: String,
    pub context: usize,
    pub section: Option<String>,
    pub smart: bool,
    pub entropy: bool,
    pub base64: bool,
    pub xor: bool,
}

/// The configuration after the options are applied: a flag that is set turns
/// its setting on (or, for `no_duplicate` and `no_sort`, off); an option that is
/// given replaces the setting; `order` and `smart` also turn sorting on; an
/// encoding other than `s` and a context above zero replace theirs.
pub open spec fn merged(c: Config, o: CliOptions) -> Config {
    Config {
        no_number: c.no_number,
        mix_cons_voy: c.mix_cons_voy,
        rx_effective_length: c.rx_effective_length,
        rx_symbole: c.rx_symbole,
        english_filter: c.english_filter,
        remove_duplicate: c.remove_duplicate && !o.no_duplicate,
        sort_significance: if o.smart || o.order is Some {
            true
        } else {
            c.sort_significance && !o.no_sort
        },
        debug: c.debug || o.debug,
        sort_by: match o.order {
            Some(name) => SortOrder::named(name@),
            None => c.sort_by,
        },
        show_offset: match o.offset {
            Some(name) => Some(OffsetFormat::named(name@)),
            None => c.show_offset,
        },
        match_regex: match o.regex {
            Some(m) => Some(m),
            None => c.match_regex,
        },
        encoding: if o.encoding@ != seq!['s'] { Encoding::named(o.encoding@) } else { c.encoding },
        context: if o.context > 0 { o.context } else { c.context },
        section: match o.section {
            Some(s) => Some(s),
            None => c.section,
        },
        smart: c.smart || o.smart,
        entropy: c.entropy || o.entropy,
        base64: c.base64 || o.base64,
        xor: c.xor || o.xor,
    }
}

fn sort_order_override(order: &Option<String>, current: SortOrder) -> (r: SortOrder)
    ensures
        r == match *order {
            Some(name) => SortOrder::named(name@),
            None => current,
        },
{
    match order {
        Some(o) => SortOrder::from_name(o.as_str()),
        None => current,
    }
}

fn offset_override(offset: &Option<String>, current: Option<OffsetFormat>) -> (r: Option<OffsetFormat>)
    ensures
        r == match *offset {
            Some(name) => Some(OffsetFormat::named(name@)),
            None => current,
        },
{
    match offset {
        Some(t) => Some(OffsetFormat::from_name(t.as_str())),
        None => current,
    }
}

fn string_override(given: &Option<String>, current: Option<String>) -> (r: Option<String>)
    ensures
        r == match *given {
            Some(m) => Some(m),
            None => current,
        },
{
    match given {
        Some(m) => Some(m.clone()),
        None => current,
    }
}

fn encoding_override(name: &String, current: Encoding) -> (r: Encoding)
    ensures
        r == if name@ != seq!['s'] { Encoding::named(name@) } else { current },
{
    let cs = chars_of(name.as_str());
    if cs.len() == 1 && cs[0] == 's' {
        assert(name@ =~= seq!['s']);
        current
    } else {
        assert(name@ != seq!['s']) by {
            if name@ == seq!['s'] {
                assert(cs@.len() == 1);
            }
        }
        Encoding::from_name(name.as_str())
    }
}

/// Applies the command-line options to a configuration.
pub fn merge_options(config: Config, opts: &CliOptions) -> (r: Config)
    ensures
        r == merged(config, *opts),
{
    let sort_significance = if opts.smart || opts.order.is_some() {
        true
    } else {
        config.sort_significance && !opts.no_sort
    };
    let sort_by = sort_order_override(&opts.order, config.sort_by);
    let show_offset = offset_override(&opts.offset, config.show_offset);
    let encoding = encoding_override(&opts.encoding, config.encoding);
    let context = if opts.context > 0 { opts.context } else { config.context };
    let match_regex = string_override(&opts.regex, config.match_regex);
    let section = string_override(&opts.section, config.section);
    Config {
        no_number: config.no_number,
        mix_cons_voy: config.mix_cons_voy,
        rx_effective_length: config.rx_effective_length,
        rx_symbole: config.rx_symbole,
        english_filter: config.english_filter,
        remove_duplicate: config.remove_duplicate && !opts.no_duplicate,
        sort_significance,
        debug: config.debug || opts.debug,
        sort_by,
        show_offset,
        match_regex,
        encoding,
        context,
        section,
        smart: config.smart || opts.smart,
        entropy: config.entropy || opts.entropy,
        base64: config.base64 || opts.base64,
        xor: config.xor || opts.xor,
    }
}

/// Smart mode and an explicit sort order both turn sorting on.
pub proof fn law_smart_or_order_sorts(c: Config, o: CliOptions)
    requires
        o.smart || o.order is Some,
    ensures
        merged(c, o).sort_significance,
{
}

/// Options that are not given leave the configuration as it is.
pub proof fn law_no_options_keep_config(c: Config, o: CliOptions)
    requires
        !o.no_duplicate && !o.no_sort && !o.debug && !o.smart && !o.entropy && !o.base64 && !o.xor,
        o.order is None && o.offset is None && o.regex is None && o.section is None,
        o.encoding@ == seq!['s'],
        o.context == 0,
    ensures
        merged(c, o) == c,
{
}

/// Options that are given win over the configuration: `--no-duplicate` turns
/// duplicate removal off; `--no-sort` turns sorting off unless `--order` or
/// `--smart` is given; each set flag turns its setting on; a given pattern,
/// section or offset format replaces the configured one (`x` is hexadecimal,
/// any other name decimal); a given order replaces it (`l` length, `n`
/// count, any other name score); a context above zero replaces it; and the
/// encoding `l` or `b` selects UTF-16 little- or big-endian, while `s` keeps
/// the configured encoding.
pub proof fn law_options_override(c: Config, o: CliOptions)
    ensures
        o.no_duplicate ==> !merged(c, o).remove_duplicate,
        o.no_sort && !o.smart && o.order is None ==> !merged(c, o).sort_significance,
        o.debug ==> merged(c, o).debug,
        o.smart ==> merged(c, o).smart,
        o.entropy ==> merged(c, o).entropy,
        o.base64 ==> merged(c, o).base64,
        o.xor ==> merged(c, o).xor,
        o.regex matches Some(m) ==> merged(c, o).match_regex == Some(m),
        o.section matches Some(t) ==> merged(c, o).section == Some(t),
        o.offset matches Some(f) ==> merged(c, o).show_offset
            == Some(if f@ == seq!['x'] { OffsetFormat::Hex } else { OffsetFormat::Decimal }),
        o.order matches Some(n) ==> merged(c, o).sort_by == (if n@ == seq!['l'] {
            SortOrder::Length
        } else if n@ == seq!['n'] {
            SortOrder::Count
        } else {
            SortOrder::Probability
        }),
        o.context > 0 ==> merged(c, o).context == o.context,
        o.encoding@ == seq!['l'] ==> merged(c, o).encoding == Encoding::Utf16Le,
        o.encoding@ == seq!['b'] ==> merged(c, o).encoding == Encoding::Utf16Be,
        o.encoding@ == seq!['s'] ==> merged(c, o).encoding == c.encoding,
        o.encoding@ != seq!['s'] && o.encoding@ != seq!['l'] && o.encoding@ != seq!['b']
            ==> merged(c, o).encoding == Encoding::Other,
{
    assert(seq!['l'][0] != seq!['s'][0] && seq!['b'][0] != seq!['s'][0]);
}

} // verus!
