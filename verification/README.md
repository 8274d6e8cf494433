# nyxip

A network scanner for the local network: it pings a range of IPv4 addresses
and reports, for each host, its name, MAC address, latency, open ports and
status, in a sortable table that can be exported to an Excel sheet.

- `src/` is the verified library (Verus): reading address ranges (CIDR blocks,
  last-octet ranges, full ranges, single addresses), IPv4 dotted-decimal form,
  the decisions between the probes of a host, reading the answers of ARP,
  reverse DNS, ICMP and the `ping` command, the stable sort of the results
  table, the texts of the table and of the exported sheet, the workbook that
  holds that sheet (built with `rust_xlsxwriter`), and the state of the scanner
  window.
- `app/` is the program around it: the egui window, the network probes
  (Windows ICMP and ARP APIs, DNS, TCP connects, the system `ping`), the
  concurrent scan on tokio, and saving the workbook to a file.
- `tests/` runs the library on concrete inputs.
