//! Command-line options and what the front ends are started with: scan
//! options from the flags, the scan root, and which interface to open.

use crate::paths::{join, normalize, normalized};
use crate::scan::{ErrorKind, IoError, ScanOptions};
use crate::tree::SizeMetric;
use crate::treemap::{Shading, Style};
use vstd::prelude::*;
use vstd::std_specs::convert::FromSpecImpl;
use vstd::string::*;

verus! {

/// `--metric`: which [`SizeMetric`] the scan sorts and weighs by.
#[derive(Clone, Copy, Debug, PartialEq, Eq, Structural)]
pub enum Metric {
    /// Bytes allocated on disk.
    Allocated,
    /// Logical file length.
    Apparent,
}

impl Default for Metric {
    fn default() -> (r: Metric)
        ensures
            r == Metric::Allocated,
    {
        Metric::Allocated
    }
}

/// The size metric a `--metric` value names.
pub open spec fn metric_of(metric: Metric) -> SizeMetric {
    match metric {
        Metric::Allocated => SizeMetric::Allocated,
        Metric::Apparent => SizeMetric::Apparent,
    }
}

impl From<Metric> for SizeMetric {
    fn from(metric: Metric) -> (r: SizeMetric) {
        match metric {
            Metric::Allocated => SizeMetric::Allocated,
            Metric::Apparent => SizeMetric::Apparent,
        }
    }
}

impl FromSpecImpl<Metric> for SizeMetric {
    open spec fn obeys_from_spec() -> bool {
        true
    }

    open spec fn from_spec(metric: Metric) -> SizeMetric {
        metric_of(metric)
    }
}

/// `--layout`: the treemap layout for `--png`.
#[derive(Clone, Copy, Debug, PartialEq, Eq, Structural)]
pub enum LayoutStyle {
    /// KDirStat-style rows.
    Rows,
    /// Tiles kept close to square.
    Squarified,
}

impl Default for LayoutStyle {
    fn default() -> (r: LayoutStyle)
        ensures
            r == LayoutStyle::Squarified,
    {
        LayoutStyle::Squarified
    }
}

impl LayoutStyle {
    /// The treemap layout this option selects.
    pub fn style(self) -> (r: Style)
        ensures
            r == (match self {
                LayoutStyle::Rows => Style::Rows,
                LayoutStyle::Squarified => Style::Squarified,
            }),
    {
        match self {
            LayoutStyle::Rows => Style::Rows,
            LayoutStyle::Squarified => Style::Squarified,
        }
    }
}

/// `--shading`: the treemap shading for `--png`.
#[derive(Clone, Copy, Debug, PartialEq, Eq, Structural)]
pub enum ShadingStyle {
    /// Softly lit cushions with a broad highlight.
    Glow,
    /// Plain fills.
    Flat,
}

impl Default for ShadingStyle {
    fn default() -> (r: ShadingStyle)
        ensures
            r == ShadingStyle::Glow,
    {
        ShadingStyle::Glow
    }
}

impl ShadingStyle {
    /// The treemap shading this option selects.
    pub fn shading(self) -> (r: Shading)
        ensures
            r == (match self {
                ShadingStyle::Glow => Shading::Glow,
                ShadingStyle::Flat => Shading::Flat,
            }),
    {
        match self {
            ShadingStyle::Glow => Shading::Glow,
            ShadingStyle::Flat => Shading::Flat,
        }
    }
}

/// Command-line options, as parsed.
#[derive(Clone, Debug)]
pub struct Cli {
    /// Directory to scan. Defaults to the current directory; the graphical
    /// interface instead offers the home folder, disks and root to pick from.
    pub path: Option<String>,
    /// Which size to sort and draw by.
    pub metric: Metric,
    /// Worker threads for directory reads (default: all cores).
    pub threads: Option<usize>,
    /// Descend into other mounted filesystems.
    pub cross_filesystems: bool,
    /// Count every hard link's data again instead of once.
    pub count_hard_links: bool,
    /// Print the largest entries instead of opening an interface.
    pub summary: bool,
    /// Use the terminal interface instead of opening a window.
    pub tui: bool,
    /// Open a window even when there seems to be no graphical session.
    pub gui: bool,
    /// Write a cushion treemap PNG to this file and exit.
    pub png: Option<String>,
    /// Treemap layout used for `--png`.
    pub layout: LayoutStyle,
    /// Shading used for `--png`.
    pub shading: ShadingStyle,
}

impl Cli {
    /// Options with no flags and no path given.
    pub fn new() -> (r: Cli)
        ensures
            r.path is None,
            r.metric == Metric::Allocated,
            r.threads is None,
            !r.cross_filesystems && !r.count_hard_links && !r.summary && !r.tui && !r.gui,
            r.png is None,
            r.layout == LayoutStyle::Squarified,
            r.shading == ShadingStyle::Glow,
    {
        Cli {
            path: None,
            metric: Metric::Allocated,
            threads: None,
            cross_filesystems: false,
            count_hard_links: false,
            summary: false,
            tui: false,
            gui: false,
            png: None,
            layout: LayoutStyle::Squarified,
            shading: ShadingStyle::Glow,
        }
    }

    /// Scan options from the flags; `--threads 0` counts as 1, and without
    /// `--threads` the scan uses `default_threads` workers (all cores).
    pub fn scan_options(&self, default_threads: usize) -> (r: ScanOptions)
        ensures
            r.same_filesystem == !self.cross_filesystems,
            r.count_hard_links_once == !self.count_hard_links,
            r.size_metric == metric_of(self.metric),
            r.threads == match self.threads {
                Some(n) => if n == 0 {
                    1
                } else {
                    n
                },
                None => default_threads,
            },
    {
        let mut options = ScanOptions::with_threads(default_threads);
        options.same_filesystem = !self.cross_filesystems;
        options.count_hard_links_once = !self.count_hard_links;
        options.size_metric = SizeMetric::from(self.metric);
        match self.threads {
            Some(threads) => {
                options.threads = if threads == 0 {
                    1
                } else {
                    threads
                };
            },
            None => {},
        }
        options
    }

    /// The directory to scan as an absolute, normalized path, resolved
    /// against the working directory `cwd` (itself absolute); the working
    /// directory when no path was given. `.`, `..` and trailing separators
    /// are cleaned away lexically, so symlinks are left as typed. An empty
    /// path cannot be made absolute and is refused.
    pub fn scan_root(&self, cwd: &str) -> (r: Result<String, IoError>)
        ensures
            match self.path {
                Some(p) => if p@.len() == 0 {
                    r matches Err(e) && e.kind == ErrorKind::InvalidInput
                } else {
                    r matches Ok(s) && s@ == normalized(crate::tree::join(cwd@, p@))
                },
                None => r matches Ok(s) && s@ == normalized(crate::tree::join(cwd@, seq!['.'])),
            },
    {
        match &self.path {
            Some(p) => {
                if p.unicode_len() == 0 {
                    return Err(IoError { kind: ErrorKind::InvalidInput, message: "cannot make an empty path absolute".to_owned() });
                }
                let full = join(cwd, p.as_str());
                let root = normalize(full.as_str());
                Ok(root)
            },
            None => {
                let dot = ".";
                proof {
                    reveal_strlit(".");
                }
                assert(dot@ =~= seq!['.']);
                let full = join(cwd, dot);
                Ok(normalize(full.as_str()))
            },
        }
    }
}

/// Which interface a run ends in.
#[derive(Clone, Copy, Debug, PartialEq, Eq, Structural)]
pub enum FrontEnd {
    /// Write the treemap picture given by `--png`.
    Png,
    /// Print the largest entries.
    Summary,
    /// The terminal interface.
    Terminal,
    /// A window.
    Window,
    /// A printed summary because there is neither a window nor a terminal.
    SummaryFallback,
}

/// Picks what a run does: `--png` wins over `--summary`, which wins over an
/// interface. `--tui` and `--gui` decide outright; otherwise a window when
/// the session looks graphical, the terminal when it does not, and a
/// printed summary when there is no terminal either. `gui` and `tui` say
/// which interfaces the build has.
pub fn front_end(cli: &Cli, gui: bool, tui: bool, graphical: bool, terminal: bool) -> (r: FrontEnd)
    ensures
        r == (if cli.png is Some {
            FrontEnd::Png
        } else if cli.summary {
            FrontEnd::Summary
        } else if gui && tui {
            if cli.tui {
                FrontEnd::Terminal
            } else if !cli.gui && !graphical {
                if terminal {
                    FrontEnd::Terminal
                } else {
                    FrontEnd::SummaryFallback
                }
            } else {
                FrontEnd::Window
            }
        } else if gui {
            FrontEnd::Window
        } else if tui {
            FrontEnd::Terminal
        } else {
            FrontEnd::Summary
        }),
{
    if cli.png.is_some() {
        return FrontEnd::Png;
    }
    if cli.summary {
        return FrontEnd::Summary;
    }
    if gui && tui {
        if cli.tui {
            FrontEnd::Terminal
        } else if !cli.gui && !graphical {
            if terminal {
                FrontEnd::Terminal
            } else {
                FrontEnd::SummaryFallback
            }
        } else {
            FrontEnd::Window
        }
    } else if gui {
        FrontEnd::Window
    } else if tui {
        FrontEnd::Terminal
    } else {
        FrontEnd::Summary
    }
}

/// Whether a window that failed to open gives way to the terminal: not
/// when `--gui` forced it, not without a terminal, and never on Windows,
/// which always has a desktop.
pub fn falls_back_to_terminal(cli: &Cli, terminal: bool, windows: bool) -> (r: bool)
    ensures
        r == (!cli.gui && terminal && !windows),
{
    !cli.gui && terminal && !windows
}

} // verus!
