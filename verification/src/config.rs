use vstd::prelude::*;

use crate::numerals::{dec_digits, fmt_u64, lemma_dec_digits_ascii, push_all};
use crate::text::{ascii_chars, bytes_to_text, eq_bytes, lossy_utf8, lower, lower_bytes};

verus! {

/// The bytes of "Invalid data bits: ".
pub open spec fn lit_invalid_data_bits() -> Seq<u8> {
    seq![73u8, 110, 118, 97, 108, 105, 100, 32, 100, 97, 116, 97, 32, 98, 105, 116, 115, 58, 32]
}

/// The bytes of ". Must be 5, 6, 7, or 8".
pub open spec fn lit_data_bits_tail() -> Seq<u8> {
    seq![46u8, 32, 77, 117, 115, 116, 32, 98, 101, 32, 53, 44, 32, 54, 44, 32, 55, 44, 32, 111, 114, 32, 56]
}

/// The bytes of "Invalid stop bits: ".
pub open spec fn lit_invalid_stop_bits() -> Seq<u8> {
    seq![73u8, 110, 118, 97, 108, 105, 100, 32, 115, 116, 111, 112, 32, 98, 105, 116, 115, 58, 32]
}

/// The bytes of ". Must be 1 or 2".
pub open spec fn lit_stop_bits_tail() -> Seq<u8> {
    seq![46u8, 32, 77, 117, 115, 116, 32, 98, 101, 32, 49, 32, 111, 114, 32, 50]
}

/// The bytes of "Invalid parity: ".
pub open spec fn lit_invalid_parity() -> Seq<u8> {
    seq![73u8, 110, 118, 97, 108, 105, 100, 32, 112, 97, 114, 105, 116, 121, 58, 32]
}

/// The bytes of ". Must be 'none', 'odd', or 'even'".
pub open spec fn lit_parity_tail() -> Seq<u8> {
    seq![46u8, 32, 77, 117, 115, 116, 32, 98, 101, 32, 39, 110, 111, 110, 101, 39, 44, 32, 39, 111, 100, 100, 39, 44, 32, 111, 114, 32, 39, 101, 118, 101, 110, 39]
}

/// The bytes of "Invalid flow control: ".
pub open spec fn lit_invalid_flow() -> Seq<u8> {
    seq![73u8, 110, 118, 97, 108, 105, 100, 32, 102, 108, 111, 119, 32, 99, 111, 110, 116, 114, 111, 108, 58, 32]
}

/// The bytes of ". Must be 'none', 'software', or 'hardware'".
pub open spec fn lit_flow_tail() -> Seq<u8> {
    seq![46u8, 32, 77, 117, 115, 116, 32, 98, 101, 32, 39, 110, 111, 110, 101, 39, 44, 32, 39, 115, 111, 102, 116, 119, 97, 114, 101, 39, 44, 32, 111, 114, 32, 39, 104, 97, 114, 100, 119, 97, 114, 101, 39]
}

/// The bytes of "USB Device (VID: ".
pub open spec fn lit_usb_open() -> Seq<u8> {
    seq![85u8, 83, 66, 32, 68, 101, 118, 105, 99, 101, 32, 40, 86, 73, 68, 58, 32]
}

/// The bytes of ", PID: ".
pub open spec fn lit_usb_mid() -> Seq<u8> {
    seq![44u8, 32, 80, 73, 68, 58, 32]
}

/// The bytes of ")".
pub open spec fn lit_usb_close() -> Seq<u8> {
    seq![41u8]
}

/// The bytes of "Bluetooth".
pub open spec fn lit_bluetooth() -> Seq<u8> {
    seq![66u8, 108, 117, 101, 116, 111, 111, 116, 104]
}

/// The bytes of "PCI".
pub open spec fn lit_pci() -> Seq<u8> {
    seq![80u8, 67, 73]
}

/// The bytes of "Unknown".
pub open spec fn lit_unknown() -> Seq<u8> {
    seq![85u8, 110, 107, 110, 111, 119, 110]
}

/// The bytes of "none".
pub open spec fn lit_none_word() -> Seq<u8> {
    seq![110u8, 111, 110, 101]
}

/// The bytes of "n".
pub open spec fn lit_n_word() -> Seq<u8> {
    seq![110u8]
}

/// The bytes of "odd".
pub open spec fn lit_odd_word() -> Seq<u8> {
    seq![111u8, 100, 100]
}

/// The bytes of "o".
pub open spec fn lit_o_word() -> Seq<u8> {
    seq![111u8]
}

/// The bytes of "even".
pub open spec fn lit_even_word() -> Seq<u8> {
    seq![101u8, 118, 101, 110]
}

/// The bytes of "e".
pub open spec fn lit_e_word() -> Seq<u8> {
    seq![101u8]
}

/// The bytes of "software".
pub open spec fn lit_software_word() -> Seq<u8> {
    seq![115u8, 111, 102, 116, 119, 97, 114, 101]
}

/// The bytes of "s".
pub open spec fn lit_s_word() -> Seq<u8> {
    seq![115u8]
}

/// The bytes of "hardware".
pub open spec fn lit_hardware_word() -> Seq<u8> {
    seq![104u8, 97, 114, 100, 119, 97, 114, 101]
}

/// The bytes of "h".
pub open spec fn lit_h_word() -> Seq<u8> {
    seq![104u8]
}

/// The number of data bits per character on the wire.
#[derive(Clone, Copy, PartialEq, Eq, Structural, Debug)]
pub enum DataBits {
    Five,
    Six,
    Seven,
    Eight,
}

/// The number of stop bits per character.
#[derive(Clone, Copy, PartialEq, Eq, Structural, Debug)]
pub enum StopBits {
    One,
    Two,
}

/// The parity scheme.
#[derive(Clone, Copy, PartialEq, Eq, Structural, Debug)]
pub enum Parity {
    NoParity,
    Odd,
    Even,
}

/// The flow-control scheme.
#[derive(Clone, Copy, PartialEq, Eq, Structural, Debug)]
pub enum FlowControl {
    NoFlow,
    Software,
    Hardware,
}

/// The invalid-data-bits message for one rejected value.
pub open spec fn data_bits_err_bytes(b: int) -> Seq<u8> {
    lit_invalid_data_bits() + dec_digits(b as nat) + lit_data_bits_tail()
}

/// Maps a data-bit count to its wire setting; exactly 5, 6, 7 and 8 are
/// accepted and anything else is refused with a message naming it.
pub fn parse_data_bits(bits: u8) -> (r: Result<DataBits, String>)
    ensures
        bits == 5 ==> r == Ok::<DataBits, String>(DataBits::Five),
        bits == 6 ==> r == Ok::<DataBits, String>(DataBits::Six),
        bits == 7 ==> r == Ok::<DataBits, String>(DataBits::Seven),
        bits == 8 ==> r == Ok::<DataBits, String>(DataBits::Eight),
        !(5 <= bits <= 8) ==> (r matches Err(e) && e@ == ascii_chars(
            data_bits_err_bytes(bits as int),
        )),
{
    if bits == 5 {
        Ok(DataBits::Five)
    } else if bits == 6 {
        Ok(DataBits::Six)
    } else if bits == 7 {
        Ok(DataBits::Seven)
    } else if bits == 8 {
        Ok(DataBits::Eight)
    } else {
        let mut msg: Vec<u8> = vec![73, 110, 118, 97, 108, 105, 100, 32, 100, 97, 116, 97, 32, 98, 105, 116, 115, 58, 32];
        proof {
            assert(msg@ =~= lit_invalid_data_bits());
        }
        let num = fmt_u64(bits as u64);
        push_all(&mut msg, num.as_slice());
        let tail: Vec<u8> = vec![46, 32, 77, 117, 115, 116, 32, 98, 101, 32, 53, 44, 32, 54, 44, 32, 55, 44, 32, 111, 114, 32, 56];
        proof {
            assert(tail@ =~= lit_data_bits_tail());
        }
        push_all(&mut msg, tail.as_slice());
        proof {
            assert(msg@ =~= data_bits_err_bytes(bits as int));
            lemma_dec_digits_ascii(bits as nat);
            assert(forall|i: int| 0 <= i < msg@.len() ==> #[trigger] msg@[i] < 128);
        }
        Err(bytes_to_text(&msg))
    }
}

/// The invalid-stop-bits message for one rejected value.
pub open spec fn stop_bits_err_bytes(b: int) -> Seq<u8> {
    lit_invalid_stop_bits() + dec_digits(b as nat) + lit_stop_bits_tail()
}

/// Maps a stop-bit count to its wire setting; exactly 1 and 2 are
/// accepted and anything else is refused with a message naming it.
pub fn parse_stop_bits(bits: u8) -> (r: Result<StopBits, String>)
    ensures
        bits == 1 ==> r == Ok::<StopBits, String>(StopBits::One),
        bits == 2 ==> r == Ok::<StopBits, String>(StopBits::Two),
        !(1 <= bits <= 2) ==> (r matches Err(e) && e@ == ascii_chars(
            stop_bits_err_bytes(bits as int),
        )),
{
    if bits == 1 {
        Ok(StopBits::One)
    } else if bits == 2 {
        Ok(StopBits::Two)
    } else {
        let mut msg: Vec<u8> = vec![73, 110, 118, 97, 108, 105, 100, 32, 115, 116, 111, 112, 32, 98, 105, 116, 115, 58, 32];
        proof {
            assert(msg@ =~= lit_invalid_stop_bits());
        }
        let num = fmt_u64(bits as u64);
        push_all(&mut msg, num.as_slice());
        let tail: Vec<u8> = vec![46, 32, 77, 117, 115, 116, 32, 98, 101, 32, 49, 32, 111, 114, 32, 50];
        proof {
            assert(tail@ =~= lit_stop_bits_tail());
        }
        push_all(&mut msg, tail.as_slice());
        proof {
            assert(msg@ =~= stop_bits_err_bytes(bits as int));
            lemma_dec_digits_ascii(bits as nat);
            assert(forall|i: int| 0 <= i < msg@.len() ==> #[trigger] msg@[i] < 128);
        }
        Err(bytes_to_text(&msg))
    }
}

/// What a parity word means, after case folding: the full words and their
/// single-letter forms.
pub open spec fn spec_parse_parity(s: Seq<u8>) -> Option<Parity> {
    let l = lower(s);
    if l == lit_none_word() || l == lit_n_word() {
        Some(Parity::NoParity)
    } else if l == lit_odd_word() || l == lit_o_word() {
        Some(Parity::Odd)
    } else if l == lit_even_word() || l == lit_e_word() {
        Some(Parity::Even)
    } else {
        None
    }
}

/// The invalid-parity message for one rejected word.
pub open spec fn parity_err_bytes(s: Seq<u8>) -> Seq<u8> {
    lit_invalid_parity() + s + lit_parity_tail()
}

/// Maps a parity word, case-insensitively, to its wire setting; an
/// unknown word is refused with a message naming it.
pub fn parse_parity(parity: &[u8]) -> (r: Result<Parity, String>)
    ensures
        spec_parse_parity(parity@) matches Some(p) ==> r == Ok::<Parity, String>(p),
        spec_parse_parity(parity@) is None ==> (r matches Err(e) && e@ == lossy_utf8(
            parity_err_bytes(parity@),
        )),
{
    let low = lower_bytes(parity);
    let w_none: Vec<u8> = vec![110, 111, 110, 101];
    let w_n: Vec<u8> = vec![110];
    let w_odd: Vec<u8> = vec![111, 100, 100];
    let w_o: Vec<u8> = vec![111];
    let w_even: Vec<u8> = vec![101, 118, 101, 110];
    let w_e: Vec<u8> = vec![101];
    proof {
        assert(w_none@ =~= lit_none_word());
        assert(w_n@ =~= lit_n_word());
        assert(w_odd@ =~= lit_odd_word());
        assert(w_o@ =~= lit_o_word());
        assert(w_even@ =~= lit_even_word());
        assert(w_e@ =~= lit_e_word());
    }
    if eq_bytes(low.as_slice(), w_none.as_slice()) || eq_bytes(low.as_slice(), w_n.as_slice()) {
        Ok(Parity::NoParity)
    } else if eq_bytes(low.as_slice(), w_odd.as_slice()) || eq_bytes(
        low.as_slice(),
        w_o.as_slice(),
    ) {
        Ok(Parity::Odd)
    } else if eq_bytes(low.as_slice(), w_even.as_slice()) || eq_bytes(
        low.as_slice(),
        w_e.as_slice(),
    ) {
        Ok(Parity::Even)
    } else {
        let mut msg: Vec<u8> = vec![73, 110, 118, 97, 108, 105, 100, 32, 112, 97, 114, 105, 116, 121, 58, 32];
        proof {
            assert(msg@ =~= lit_invalid_parity());
        }
        push_all(&mut msg, parity);
        let tail: Vec<u8> = vec![46, 32, 77, 117, 115, 116, 32, 98, 101, 32, 39, 110, 111, 110, 101, 39, 44, 32, 39, 111, 100, 100, 39, 44, 32, 111, 114, 32, 39, 101, 118, 101, 110, 39];
        proof {
            assert(tail@ =~= lit_parity_tail());
        }
        push_all(&mut msg, tail.as_slice());
        proof {
            assert(msg@ =~= parity_err_bytes(parity@));
        }
        Err(bytes_to_text(&msg))
    }
}

/// What a flow-control word means, after case folding.
pub open spec fn spec_parse_flow(s: Seq<u8>) -> Option<FlowControl> {
    let l = lower(s);
    if l == lit_none_word() || l == lit_n_word() {
        Some(FlowControl::NoFlow)
    } else if l == lit_software_word() || l == lit_s_word() {
        Some(FlowControl::Software)
    } else if l == lit_hardware_word() || l == lit_h_word() {
        Some(FlowControl::Hardware)
    } else {
        None
    }
}

/// The invalid-flow-control message for one rejected word.
pub open spec fn flow_err_bytes(s: Seq<u8>) -> Seq<u8> {
    lit_invalid_flow() + s + lit_flow_tail()
}

/// Maps a flow-control word, case-insensitively, to its wire setting; an
/// unknown word is refused with a message naming it.
pub fn parse_flow_control(flow: &[u8]) -> (r: Result<FlowControl, String>)
    ensures
        spec_parse_flow(flow@) matches Some(f) ==> r == Ok::<FlowControl, String>(f),
        spec_parse_flow(flow@) is None ==> (r matches Err(e) && e@ == lossy_utf8(
            flow_err_bytes(flow@),
        )),
{
    let low = lower_bytes(flow);
    let w_none: Vec<u8> = vec![110, 111, 110, 101];
    let w_n: Vec<u8> = vec![110];
    let w_soft: Vec<u8> = vec![115, 111, 102, 116, 119, 97, 114, 101];
    let w_s: Vec<u8> = vec![115];
    let w_hard: Vec<u8> = vec![104, 97, 114, 100, 119, 97, 114, 101];
    let w_h: Vec<u8> = vec![104];
    proof {
        assert(w_none@ =~= lit_none_word());
        assert(w_n@ =~= lit_n_word());
        assert(w_soft@ =~= lit_software_word());
        assert(w_s@ =~= lit_s_word());
        assert(w_hard@ =~= lit_hardware_word());
        assert(w_h@ =~= lit_h_word());
    }
    if eq_bytes(low.as_slice(), w_none.as_slice()) || eq_bytes(low.as_slice(), w_n.as_slice()) {
        Ok(FlowControl::NoFlow)
    } else if eq_bytes(low.as_slice(), w_soft.as_slice()) || eq_bytes(
        low.as_slice(),
        w_s.as_slice(),
    ) {
        Ok(FlowControl::Software)
    } else if eq_bytes(low.as_slice(), w_hard.as_slice()) || eq_bytes(
        low.as_slice(),
        w_h.as_slice(),
    ) {
        Ok(FlowControl::Hardware)
    } else {
        let mut msg: Vec<u8> = vec![73, 110, 118, 97, 108, 105, 100, 32, 102, 108, 111, 119, 32, 99, 111, 110, 116, 114, 111, 108, 58, 32];
        proof {
            assert(msg@ =~= lit_invalid_flow());
        }
        push_all(&mut msg, flow);
        let tail: Vec<u8> = vec![46, 32, 77, 117, 115, 116, 32, 98, 101, 32, 39, 110, 111, 110, 101, 39, 44, 32, 39, 115, 111, 102, 116, 119, 97, 114, 101, 39, 44, 32, 111, 114, 32, 39, 104, 97, 114, 100, 119, 97, 114, 101, 39];
        proof {
            assert(tail@ =~= lit_flow_tail());
        }
        push_all(&mut msg, tail.as_slice());
        proof {
            assert(msg@ =~= flow_err_bytes(flow@));
        }
        Err(bytes_to_text(&msg))
    }
}


/// The resolved settings a session runs with, after the configuration
/// file and the command line have been merged.
pub struct Settings {
    /// The port to open, or none given.
    pub port: Option<String>,
    /// The baud rate.
    pub baud: u32,
    /// Data bits per character.
    pub data_bits: u8,
    /// Stop bits per character.
    pub stop_bits: u8,
    /// The parity word, not yet parsed.
    pub parity: String,
    /// The flow-control word, not yet parsed.
    pub flow_control: String,
    /// The transport read timeout, in milliseconds.
    pub timeout_ms: u64,
    /// How long to wait after opening, in milliseconds.
    pub reset_delay_ms: u64,
    /// The log file path, if logging is on.
    pub log_file: Option<String>,
    /// Whether only the port listing was asked for.
    pub list_ports: bool,
    /// Whether to print verbose output.
    pub verbose: bool,
    /// Whether to run the live chart.
    pub plot: bool,
    /// The rolling window size of the chart.
    pub plot_points: usize,
}

/// One source of settings, every field optional: a configuration file or
/// the command line.
pub struct SettingsPatch {
    pub port: Option<String>,
    pub baud: Option<u32>,
    pub data_bits: Option<u8>,
    pub stop_bits: Option<u8>,
    pub parity: Option<String>,
    pub flow_control: Option<String>,
    pub timeout_ms: Option<u64>,
    pub reset_delay_ms: Option<u64>,
    pub log_file: Option<String>,
    pub verbose: Option<bool>,
    pub plot: Option<bool>,
    pub plot_points: Option<usize>,
    /// Whether only the port listing was asked for; only the command line
    /// sets it.
    pub list_ports: bool,
}

impl Default for SettingsPatch {
    /// The stock configuration: automatic port detection at 9600 baud,
    /// eight data bits, one stop bit, no parity, no flow control, a half
    /// second read timeout, a one second reset delay, no log file, quiet,
    /// no chart, and a hundred chart points.
    fn default() -> (r: SettingsPatch)
        ensures
            r.port matches Some(p) && p@ == "auto"@,
            r.baud == Some(9600u32),
            r.data_bits == Some(8u8),
            r.stop_bits == Some(1u8),
            r.parity matches Some(p) && p@ == "none"@,
            r.flow_control matches Some(p) && p@ == "none"@,
            r.timeout_ms == Some(500u64),
            r.reset_delay_ms == Some(1000u64),
            r.log_file is None,
            r.verbose == Some(false),
            r.plot == Some(false),
            r.plot_points == Some(100usize),
            !r.list_ports,
    {
        SettingsPatch {
            port: Some("auto".to_owned()),
            baud: Some(9600),
            data_bits: Some(8),
            stop_bits: Some(1),
            parity: Some("none".to_owned()),
            flow_control: Some("none".to_owned()),
            timeout_ms: Some(500),
            reset_delay_ms: Some(1000),
            log_file: None,
            verbose: Some(false),
            plot: Some(false),
            plot_points: Some(100),
            list_ports: false,
        }
    }
}

/// Merges the command line over the configuration file over the built-in
/// defaults: for each setting the command line wins, then the file, then
/// the default.
pub fn merge_config_and_args(config: SettingsPatch, args: SettingsPatch) -> (r: Settings)
    ensures
        r.port == (if args.port is Some {
            args.port
        } else {
            config.port
        }),
        r.baud == (match args.baud {
            Some(b) => b,
            None => match config.baud {
                Some(b) => b,
                None => 9600u32,
            },
        }),
        r.data_bits == (match args.data_bits {
            Some(b) => b,
            None => match config.data_bits {
                Some(b) => b,
                None => 8u8,
            },
        }),
        r.stop_bits == (match args.stop_bits {
            Some(b) => b,
            None => match config.stop_bits {
                Some(b) => b,
                None => 1u8,
            },
        }),
        r.parity@ == (match args.parity {
            Some(p) => p@,
            None => match config.parity {
                Some(p) => p@,
                None => "none"@,
            },
        }),
        r.flow_control@ == (match args.flow_control {
            Some(p) => p@,
            None => match config.flow_control {
                Some(p) => p@,
                None => "none"@,
            },
        }),
        r.timeout_ms == (match args.timeout_ms {
            Some(t) => t,
            None => match config.timeout_ms {
                Some(t) => t,
                None => 500u64,
            },
        }),
        r.reset_delay_ms == (match args.reset_delay_ms {
            Some(t) => t,
            None => match config.reset_delay_ms {
                Some(t) => t,
                None => 1000u64,
            },
        }),
        r.log_file == (if args.log_file is Some {
            args.log_file
        } else {
            config.log_file
        }),
        r.list_ports == args.list_ports,
        r.verbose == (match args.verbose {
            Some(v) => v,
            None => match config.verbose {
                Some(v) => v,
                None => false,
            },
        }),
        r.plot == (match args.plot {
            Some(v) => v,
            None => match config.plot {
                Some(v) => v,
                None => false,
            },
        }),
        r.plot_points == (match args.plot_points {
            Some(v) => v,
            None => match config.plot_points {
                Some(v) => v,
                None => 100usize,
            },
        }),
{
    let port = match args.port {
        Some(p) => Some(p),
        None => config.port,
    };
    let baud = match args.baud {
        Some(b) => b,
        None => match config.baud {
            Some(b) => b,
            None => 9600,
        },
    };
    let data_bits = match args.data_bits {
        Some(b) => b,
        None => match config.data_bits {
            Some(b) => b,
            None => 8,
        },
    };
    let stop_bits = match args.stop_bits {
        Some(b) => b,
        None => match config.stop_bits {
            Some(b) => b,
            None => 1,
        },
    };
    let parity = match args.parity {
        Some(p) => p,
        None => match config.parity {
            Some(p) => p,
            None => "none".to_owned(),
        },
    };
    let flow_control = match args.flow_control {
        Some(p) => p,
        None => match config.flow_control {
            Some(p) => p,
            None => "none".to_owned(),
        },
    };
    let timeout_ms = match args.timeout_ms {
        Some(t) => t,
        None => match config.timeout_ms {
            Some(t) => t,
            None => 500,
        },
    };
    let reset_delay_ms = match args.reset_delay_ms {
        Some(t) => t,
        None => match config.reset_delay_ms {
            Some(t) => t,
            None => 1000,
        },
    };
    let log_file = match args.log_file {
        Some(p) => Some(p),
        None => config.log_file,
    };
    let verbose = match args.verbose {
        Some(v) => v,
        None => match config.verbose {
            Some(v) => v,
            None => false,
        },
    };
    let plot = match args.plot {
        Some(v) => v,
        None => match config.plot {
            Some(v) => v,
            None => false,
        },
    };
    let plot_points = match args.plot_points {
        Some(v) => v,
        None => match config.plot_points {
            Some(v) => v,
            None => 100,
        },
    };
    Settings {
        port,
        baud,
        data_bits,
        stop_bits,
        parity,
        flow_control,
        timeout_ms,
        reset_delay_ms,
        log_file,
        list_ports: args.list_ports,
        verbose,
        plot,
        plot_points,
    }
}

/// What kind of device a discovered serial port is.
#[derive(Clone, Copy, PartialEq, Eq, Structural, Debug)]
pub enum PortKind {
    /// A USB device with its vendor and product identifiers.
    Usb { vid: u16, pid: u16 },
    Bluetooth,
    Pci,
    Unknown,
}

/// The lower-case hex digit of a value below sixteen.
pub open spec fn hex_digit(d: int) -> u8 {
    if d < 10 {
        (48 + d) as u8
    } else {
        (87 + d) as u8
    }
}

/// The four-digit lower-case hex rendering of a sixteen-bit value.
pub open spec fn hex4_bytes(n: int) -> Seq<u8> {
    seq![
        hex_digit(n / 4096),
        hex_digit((n / 256) % 16),
        hex_digit((n / 16) % 16),
        hex_digit(n % 16),
    ]
}

/// Renders a sixteen-bit value as four lower-case hex digits.
pub fn fmt_hex4(n: u16) -> (r: Vec<u8>)
    ensures
        r@ == hex4_bytes(n as int),
{
    let mut v: Vec<u8> = Vec::new();
    let d0 = (n / 4096) as u8;
    let d1 = ((n / 256) % 16) as u8;
    let d2 = ((n / 16) % 16) as u8;
    let d3 = (n % 16) as u8;
    v.push(if d0 < 10 { 48 + d0 } else { 87 + d0 });
    v.push(if d1 < 10 { 48 + d1 } else { 87 + d1 });
    v.push(if d2 < 10 { 48 + d2 } else { 87 + d2 });
    v.push(if d3 < 10 { 48 + d3 } else { 87 + d3 });
    proof {
        assert(v@ =~= hex4_bytes(n as int));
    }
    v
}

/// The display description of a port kind; a USB device names its vendor
/// and product identifiers in hex.
pub open spec fn port_desc_bytes(k: PortKind) -> Seq<u8> {
    match k {
        PortKind::Usb { vid, pid } => lit_usb_open() + hex4_bytes(vid as int) + lit_usb_mid()
            + hex4_bytes(pid as int) + lit_usb_close(),
        PortKind::Bluetooth => lit_bluetooth(),
        PortKind::Pci => lit_pci(),
        PortKind::Unknown => lit_unknown(),
    }
}

/// Describes a port kind for the port listing.
pub fn describe_port_type(k: PortKind) -> (r: String)
    ensures
        r@ == ascii_chars(port_desc_bytes(k)),
{
    match k {
        PortKind::Usb { vid, pid } => {
            let mut out: Vec<u8> = vec![85, 83, 66, 32, 68, 101, 118, 105, 99, 101, 32, 40, 86, 73, 68, 58, 32];
            proof {
                assert(out@ =~= lit_usb_open());
            }
            let vb = fmt_hex4(vid);
            push_all(&mut out, vb.as_slice());
            let mid: Vec<u8> = vec![44, 32, 80, 73, 68, 58, 32];
            proof {
                assert(mid@ =~= lit_usb_mid());
            }
            push_all(&mut out, mid.as_slice());
            let pb = fmt_hex4(pid);
            push_all(&mut out, pb.as_slice());
            out.push(41);
            proof {
                assert(out@ =~= port_desc_bytes(k));
                assert(forall|i: int| 0 <= i < out@.len() ==> #[trigger] out@[i] < 128);
            }
            bytes_to_text(&out)
        },
        PortKind::Bluetooth => {
            let out: Vec<u8> = vec![66, 108, 117, 101, 116, 111, 111, 116, 104];
            proof {
                assert(out@ =~= port_desc_bytes(k));
                assert(forall|i: int| 0 <= i < out@.len() ==> #[trigger] out@[i] < 128);
            }
            bytes_to_text(&out)
        },
        PortKind::Pci => {
            let out: Vec<u8> = vec![80, 67, 73];
            proof {
                assert(out@ =~= port_desc_bytes(k));
                assert(forall|i: int| 0 <= i < out@.len() ==> #[trigger] out@[i] < 128);
            }
            bytes_to_text(&out)
        },
        PortKind::Unknown => {
            let out: Vec<u8> = vec![85, 110, 107, 110, 111, 119, 110];
            proof {
                assert(out@ =~= port_desc_bytes(k));
                assert(forall|i: int| 0 <= i < out@.len() ==> #[trigger] out@[i] < 128);
            }
            bytes_to_text(&out)
        },
    }
}

/// The index of the first USB port in a listing, or its length when none
/// is there.
pub open spec fn usb_index(ps: Seq<(String, PortKind)>) -> int
    decreases ps.len(),
{
    if ps.len() == 0 {
        0
    } else if ps[0].1 is Usb {
        0
    } else {
        1 + usb_index(ps.drop_first(), )
    }
}

/// What `usb_index` returns.
pub proof fn lemma_usb_index(ps: Seq<(String, PortKind)>)
    ensures
        0 <= usb_index(ps) <= ps.len(),
        usb_index(ps) < ps.len() ==> ps[usb_index(ps)].1 is Usb,
        forall|i: int| 0 <= i < usb_index(ps) ==> !((#[trigger] ps[i]).1 is Usb),
    decreases ps.len(),
{
    if ps.len() > 0 && !(ps[0].1 is Usb) {
        lemma_usb_index(ps.drop_first());
        assert forall|i: int| 0 <= i < usb_index(ps) implies !((#[trigger] ps[i]).1 is Usb) by {
            if i > 0 {
                assert(ps.drop_first()[i - 1] == ps[i]);
            }
        }
    }
}

/// Picks the first USB port out of a port listing, the auto-detection
/// rule.
pub fn find_usb_port(ports: &Vec<(String, PortKind)>) -> (r: Option<String>)
    ensures
        ({
            let i = usb_index(ports@);
            if i < ports@.len() {
                r matches Some(s) && s@ == ports@[i].0@
            } else {
                r is None
            }
        }),
{
    let n = ports.len();
    let mut k: usize = 0;
    proof {
        lemma_usb_index(ports@);
    }
    while k < n
        invariant
            0 <= k <= n,
            n == ports@.len(),
            forall|i: int| 0 <= i < k ==> !((#[trigger] ports@[i]).1 is Usb),
        decreases n - k,
    {
        match ports[k].1 {
            PortKind::Usb { vid, pid } => {
                proof {
                    lemma_usb_index(ports@);
                    if usb_index(ports@) < k {
                        assert(ports@[usb_index(ports@)].1 is Usb);
                    }
                    if usb_index(ports@) > k {
                        assert(!(ports@[k as int].1 is Usb));
                    }
                }
                return Some(ports[k].0.clone());
            },
            _ => {},
        }
        k = k + 1;
    }
    proof {
        lemma_usb_index(ports@);
        if usb_index(ports@) < ports@.len() {
            assert(ports@[usb_index(ports@)].1 is Usb);
        }
    }
    None
}

} // verus!
